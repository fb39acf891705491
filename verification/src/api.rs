//! The directory lister: filters hidden children out of what the filesystem
//! reported, reconstructs each survivor's client-visible path, and orders
//! the result with directories before files and names ascending within each
//! group, by a verified stable insertion sort.

use vstd::prelude::*;
use vstd::string::StrSliceExecFns;
use vstd::string::StringExecFns;
use crate::shared::FileEntry;
use crate::shared::FileEntryV;
use crate::shared::RelativePath;
use crate::shared::hidden_name;
use crate::shared::is_hidden;
use crate::shared::join_slash;
use crate::shared::path_to_web_string;

verus! {

/// What the filesystem reports about one directory child: its base name and
/// the metadata the listing carries over.
pub struct EntryInfo {
    pub name: String,
    pub is_dir: bool,
    pub size: u64,
    pub modified: u64,
}

/// The mathematical content of an `EntryInfo`.
#[verifier::ext_equal]
pub struct EntryInfoV {
    pub name: Seq<char>,
    pub is_dir: bool,
    pub size: u64,
    pub modified: u64,
}

impl View for EntryInfo {
    type V = EntryInfoV;

    open spec fn view(&self) -> EntryInfoV {
        EntryInfoV {
            name: self.name@,
            is_dir: self.is_dir,
            size: self.size,
            modified: self.modified,
        }
    }
}

/// The views of a sequence of listing records.
pub open spec fn entries_view(s: Seq<FileEntry>) -> Seq<FileEntryV> {
    s.map_values(|e: FileEntry| e@)
}

/// The views of a sequence of reported children.
pub open spec fn infos_view(s: Seq<EntryInfo>) -> Seq<EntryInfoV> {
    s.map_values(|e: EntryInfo| e@)
}

/// The listing record for one visible child: the client-visible path is the
/// parent's rendered path extended by the child's name, or the name alone
/// when the parent is the storage root.
pub open spec fn file_entry_of(parent: Seq<Seq<char>>, info: EntryInfoV) -> FileEntryV {
    FileEntryV {
        name: info.name,
        is_dir: info.is_dir,
        path: if parent.len() == 0 {
            info.name
        } else {
            join_slash(parent) + seq!['/'] + info.name
        },
        size: info.size,
        modified: info.modified,
    }
}

/// The visible children of a directory, in the order the filesystem
/// reported them: hidden names are skipped, the rest become listing records.
pub open spec fn visible_entries(parent: Seq<Seq<char>>, infos: Seq<EntryInfoV>) -> Seq<
    FileEntryV,
>
    decreases infos.len(),
{
    if infos.len() == 0 {
        Seq::empty()
    } else {
        let rest = visible_entries(parent, infos.drop_last());
        if hidden_name(infos.last().name) {
            rest
        } else {
            rest.push(file_entry_of(parent, infos.last()))
        }
    }
}

/// Lexicographic order on names, by character code, case-sensitive.
pub open spec fn lex_le(a: Seq<char>, b: Seq<char>) -> bool
    decreases a.len(),
{
    if a.len() == 0 {
        true
    } else if b.len() == 0 {
        false
    } else if (a[0] as u32) == (b[0] as u32) {
        lex_le(a.skip(1), b.skip(1))
    } else {
        (a[0] as u32) < (b[0] as u32)
    }
}

/// The listing order: every directory before every file; within each group,
/// names ascending lexicographically.
pub open spec fn entry_le(a: FileEntryV, b: FileEntryV) -> bool {
    (a.is_dir && !b.is_dir) || (a.is_dir == b.is_dir && lex_le(a.name, b.name))
}

/// A sequence ordered by the listing order.
pub open spec fn sorted_entries(s: Seq<FileEntryV>) -> bool {
    forall|i: int, j: int| 0 <= i < j < s.len() ==> entry_le(#[trigger] s[i], #[trigger] s[j])
}

/// Stable insertion: the new record goes after every record that does not
/// compare strictly above it, so records that compare equal keep their
/// reported order.
pub open spec fn insert_entry(s: Seq<FileEntryV>, e: FileEntryV) -> Seq<FileEntryV>
    decreases s.len(),
{
    if s.len() == 0 {
        seq![e]
    } else if entry_le(s[0], e) {
        seq![s[0]] + insert_entry(s.skip(1), e)
    } else {
        seq![e] + s
    }
}

/// Stable insertion sort by the listing order.
pub open spec fn sort_entries(s: Seq<FileEntryV>) -> Seq<FileEntryV>
    decreases s.len(),
{
    if s.len() == 0 {
        Seq::empty()
    } else {
        insert_entry(sort_entries(s.drop_last()), s.last())
    }
}

/// The listing order is total.
pub proof fn lemma_lex_le_total(a: Seq<char>, b: Seq<char>)
    ensures
        lex_le(a, b) || lex_le(b, a),
    decreases a.len(),
{
    if a.len() > 0 && b.len() > 0 && (a[0] as u32) == (b[0] as u32) {
        lemma_lex_le_total(a.skip(1), b.skip(1));
    }
}

/// The listing order is transitive.
pub proof fn lemma_lex_le_trans(a: Seq<char>, b: Seq<char>, c: Seq<char>)
    requires
        lex_le(a, b),
        lex_le(b, c),
    ensures
        lex_le(a, c),
    decreases a.len(),
{
    if a.len() > 0 {
        assert(b.len() > 0);
        assert(c.len() > 0);
        if (a[0] as u32) == (b[0] as u32) && (b[0] as u32) == (c[0] as u32) {
            lemma_lex_le_trans(a.skip(1), b.skip(1), c.skip(1));
        }
    }
}

pub proof fn lemma_entry_le_total(a: FileEntryV, b: FileEntryV)
    ensures
        entry_le(a, b) || entry_le(b, a),
{
    lemma_lex_le_total(a.name, b.name);
}

pub proof fn lemma_entry_le_trans(a: FileEntryV, b: FileEntryV, c: FileEntryV)
    requires
        entry_le(a, b),
        entry_le(b, c),
    ensures
        entry_le(a, c),
{
    if a.is_dir == b.is_dir && b.is_dir == c.is_dir {
        lemma_lex_le_trans(a.name, b.name, c.name);
    }
}

/// A record below the inserted one and below every record of the sequence
/// is below every record after the insertion.
proof fn lemma_insert_entry_dominated(s: Seq<FileEntryV>, e: FileEntryV, x: FileEntryV)
    requires
        entry_le(x, e),
        forall|i: int| 0 <= i < s.len() ==> entry_le(x, #[trigger] s[i]),
    ensures
        forall|j: int|
            0 <= j < insert_entry(s, e).len() ==> entry_le(x, #[trigger] insert_entry(s, e)[j]),
    decreases s.len(),
{
    if s.len() == 0 {
    } else if entry_le(s[0], e) {
        assert(forall|i: int| 0 <= i < s.skip(1).len() ==> entry_le(x, #[trigger] s.skip(1)[i]));
        lemma_insert_entry_dominated(s.skip(1), e, x);
        assert forall|j: int| 0 <= j < insert_entry(s, e).len() implies entry_le(
            x,
            #[trigger] insert_entry(s, e)[j],
        ) by {
            if j > 0 {
                assert(insert_entry(s, e)[j] == insert_entry(s.skip(1), e)[j - 1]);
            }
        }
    } else {
    }
}

/// Inserting into an ordered sequence keeps it ordered.
proof fn lemma_insert_entry_sorted(s: Seq<FileEntryV>, e: FileEntryV)
    requires
        sorted_entries(s),
    ensures
        sorted_entries(insert_entry(s, e)),
    decreases s.len(),
{
    if s.len() == 0 {
    } else if entry_le(s[0], e) {
        let s1 = s.skip(1);
        assert(forall|i: int, j: int|
            0 <= i < j < s1.len() ==> entry_le(#[trigger] s1[i], #[trigger] s1[j]));
        lemma_insert_entry_sorted(s1, e);
        assert(forall|i: int| 0 <= i < s1.len() ==> entry_le(s[0], #[trigger] s1[i]));
        lemma_insert_entry_dominated(s1, e, s[0]);
        let r = insert_entry(s, e);
        assert forall|i: int, j: int| 0 <= i < j < r.len() implies entry_le(
            #[trigger] r[i],
            #[trigger] r[j],
        ) by {
            if i == 0 {
                assert(r[j] == insert_entry(s1, e)[j - 1]);
            } else {
                assert(r[i] == insert_entry(s1, e)[i - 1]);
                assert(r[j] == insert_entry(s1, e)[j - 1]);
            }
        }
    } else {
        let r = insert_entry(s, e);
        assert forall|i: int, j: int| 0 <= i < j < r.len() implies entry_le(
            #[trigger] r[i],
            #[trigger] r[j],
        ) by {
            if i == 0 {
                lemma_entry_le_total(s[0], e);
                assert(entry_le(e, s[0]));
                if j > 1 {
                    lemma_entry_le_trans(e, s[0], s[j - 1]);
                }
            }
        }
    }
}

/// Law: every listing is ordered with all directories before all files and,
/// within each group, names ascending.
pub proof fn lemma_sort_entries_sorted(s: Seq<FileEntryV>)
    ensures
        sorted_entries(sort_entries(s)),
    decreases s.len(),
{
    if s.len() > 0 {
        lemma_sort_entries_sorted(s.drop_last());
        lemma_insert_entry_sorted(sort_entries(s.drop_last()), s.last());
    }
}

proof fn lemma_insert_entry_preserves_not_hidden(s: Seq<FileEntryV>, e: FileEntryV)
    requires
        forall|i: int| 0 <= i < s.len() ==> !hidden_name((#[trigger] s[i]).name),
        !hidden_name(e.name),
    ensures
        forall|j: int|
            0 <= j < insert_entry(s, e).len() ==> !hidden_name(
                (#[trigger] insert_entry(s, e)[j]).name,
            ),
    decreases s.len(),
{
    if s.len() == 0 {
    } else if entry_le(s[0], e) {
        assert(forall|i: int|
            0 <= i < s.skip(1).len() ==> !hidden_name((#[trigger] s.skip(1)[i]).name));
        lemma_insert_entry_preserves_not_hidden(s.skip(1), e);
        assert forall|j: int| 0 <= j < insert_entry(s, e).len() implies !hidden_name(
            (#[trigger] insert_entry(s, e)[j]).name,
        ) by {
            if j > 0 {
                assert(insert_entry(s, e)[j] == insert_entry(s.skip(1), e)[j - 1]);
            }
        }
    } else {
    }
}

proof fn lemma_sort_entries_preserves_not_hidden(s: Seq<FileEntryV>)
    requires
        forall|i: int| 0 <= i < s.len() ==> !hidden_name((#[trigger] s[i]).name),
    ensures
        forall|j: int|
            0 <= j < sort_entries(s).len() ==> !hidden_name((#[trigger] sort_entries(s)[j]).name),
    decreases s.len(),
{
    if s.len() > 0 {
        assert(forall|i: int|
            0 <= i < s.drop_last().len() ==> !hidden_name((#[trigger] s.drop_last()[i]).name));
        lemma_sort_entries_preserves_not_hidden(s.drop_last());
        lemma_insert_entry_preserves_not_hidden(sort_entries(s.drop_last()), s.last());
    }
}

proof fn lemma_visible_entries_not_hidden(parent: Seq<Seq<char>>, infos: Seq<EntryInfoV>)
    ensures
        forall|i: int|
            0 <= i < visible_entries(parent, infos).len() ==> !hidden_name(
                (#[trigger] visible_entries(parent, infos)[i]).name,
            ),
    decreases infos.len(),
{
    if infos.len() > 0 {
        lemma_visible_entries_not_hidden(parent, infos.drop_last());
        let rest = visible_entries(parent, infos.drop_last());
        let whole = visible_entries(parent, infos);
        assert forall|i: int| 0 <= i < whole.len() implies !hidden_name(
            (#[trigger] whole[i]).name,
        ) by {
            if !hidden_name(infos.last().name) && i == whole.len() - 1 {
                assert(whole[i] == file_entry_of(parent, infos.last()));
            } else {
                assert(whole[i] == rest[i]);
            }
        }
    }
}

/// Law: no record of any listing has a hidden base name.
pub proof fn lemma_listing_not_hidden(parent: Seq<Seq<char>>, infos: Seq<EntryInfoV>)
    ensures
        forall|i: int|
            0 <= i < sort_entries(visible_entries(parent, infos)).len() ==> !hidden_name(
                (#[trigger] sort_entries(visible_entries(parent, infos))[i]).name,
            ),
{
    lemma_visible_entries_not_hidden(parent, infos);
    lemma_sort_entries_preserves_not_hidden(visible_entries(parent, infos));
}

/// Inserting at the first position whose record does not compare below the
/// new one realizes the stable insertion.
proof fn lemma_insert_entry_at(s: Seq<FileEntryV>, e: FileEntryV, j: int)
    requires
        0 <= j <= s.len(),
        forall|t: int| 0 <= t < j ==> entry_le(#[trigger] s[t], e),
        j < s.len() ==> !entry_le(s[j], e),
    ensures
        insert_entry(s, e) =~~= s.take(j) + seq![e] + s.skip(j),
    decreases j,
{
    if j == 0 {
        if s.len() == 0 {
            assert(insert_entry(s, e) =~~= s.take(0) + seq![e] + s.skip(0));
        } else {
            assert(!entry_le(s[0], e));
            assert(insert_entry(s, e) =~~= s.take(0) + seq![e] + s.skip(0));
        }
    } else {
        assert(entry_le(s[0], e));
        let s1 = s.skip(1);
        assert(forall|t: int| 0 <= t < j - 1 ==> entry_le(#[trigger] s1[t], e));
        lemma_insert_entry_at(s1, e, j - 1);
        assert(insert_entry(s, e) == seq![s[0]] + insert_entry(s1, e));
        assert(seq![s[0]] + (s1.take(j - 1) + seq![e] + s1.skip(j - 1)) =~~= s.take(j) + seq![e]
            + s.skip(j));
    }
}

fn str_lex_le(a: &String, b: &String) -> (r: bool)
    ensures
        r == lex_le(a@, b@),
{
    let an = a.as_str().unicode_len();
    let bn = b.as_str().unicode_len();
    let mut i: usize = 0;
    proof {
        assert(a@.skip(0) =~= a@);
        assert(b@.skip(0) =~= b@);
    }
    loop
        invariant
            an == a@.len(),
            bn == b@.len(),
            i <= an,
            i <= bn,
            lex_le(a@, b@) == lex_le(a@.skip(i as int), b@.skip(i as int)),
        decreases an - i,
    {
        if i == an {
            proof {
                assert(a@.skip(i as int).len() == 0);
            }
            return true;
        }
        if i == bn {
            proof {
                assert(b@.skip(i as int).len() == 0);
                assert(a@.skip(i as int).len() > 0);
            }
            return false;
        }
        let ca = a.as_str().get_char(i);
        let cb = b.as_str().get_char(i);
        proof {
            assert(a@.skip(i as int)[0] == a@[i as int]);
            assert(b@.skip(i as int)[0] == b@[i as int]);
        }
        if (ca as u32) == (cb as u32) {
            proof {
                assert(a@.skip(i as int).skip(1) =~= a@.skip(i + 1));
                assert(b@.skip(i as int).skip(1) =~= b@.skip(i + 1));
            }
            i += 1;
        } else {
            return (ca as u32) < (cb as u32);
        }
    }
}

fn entry_le_exec(a: &FileEntry, b: &FileEntry) -> (r: bool)
    ensures
        r == entry_le(a@, b@),
{
    if a.is_dir && !b.is_dir {
        true
    } else if a.is_dir == b.is_dir {
        str_lex_le(&a.name, &b.name)
    } else {
        false
    }
}

/// Inserts a record into an ordered listing at its stable position.
fn insert_sorted(out: &mut Vec<FileEntry>, e: FileEntry)
    requires
        sorted_entries(entries_view(old(out)@)),
    ensures
        entries_view(final(out)@) == insert_entry(entries_view(old(out)@), e@),
        sorted_entries(entries_view(final(out)@)),
{
    let ghost s = entries_view(out@);
    let mut j: usize = 0;
    while j < out.len() && entry_le_exec(&out[j], &e)
        invariant
            out@ == old(out)@,
            j <= out@.len(),
            forall|t: int| 0 <= t < j ==> entry_le(#[trigger] entries_view(out@)[t], e@),
        decreases out@.len() - j,
    {
        j += 1;
    }
    proof {
        lemma_insert_entry_at(s, e@, j as int);
        lemma_insert_entry_sorted(s, e@);
    }
    out.insert(j, e);
    proof {
        assert(entries_view(out@) =~~= s.take(j as int) + seq![e@] + s.skip(j as int));
    }
}

/// Builds the listing of a confined directory from what the filesystem
/// reported about its immediate children.
///
/// Hidden children are dropped; each survivor's client-visible path is the
/// parent's rendered path extended by its name, or the name alone under the
/// storage root; the result is ordered with every directory before every
/// file and names ascending within each group. The result is a function of
/// the arguments alone, so two listings of an unchanged directory are
/// identical.
pub fn list_entries(parent: &RelativePath, infos: Vec<EntryInfo>) -> (r: Vec<FileEntry>)
    ensures
        entries_view(r@) == sort_entries(visible_entries(parent@, infos_view(infos@))),
        sorted_entries(entries_view(r@)),
        forall|i: int| 0 <= i < r@.len() ==> !hidden_name((#[trigger] r@[i])@.name),
        forall|i: int, j: int|
            #![trigger r@[i], r@[j]]
            0 <= i < j < r@.len() && r@[j]@.is_dir ==> r@[i]@.is_dir,
        forall|i: int, j: int|
            #![trigger r@[i], r@[j]]
            (0 <= i < j < r@.len() && r@[i]@.is_dir == r@[j]@.is_dir) ==> lex_le(
                r@[i]@.name,
                r@[j]@.name,
            ),
{
    let prefix = path_to_web_string(parent);
    let at_root = parent.is_root();
    let mut out: Vec<FileEntry> = Vec::new();
    let mut k: usize = 0;
    let ghost iv = infos_view(infos@);
    proof {
        assert(iv.take(0) =~~= Seq::<EntryInfoV>::empty());
        assert(entries_view(out@) =~~= Seq::<FileEntryV>::empty());
        assert(sort_entries(visible_entries(parent@, iv.take(0))) =~~= Seq::<FileEntryV>::empty());
    }
    while k < infos.len()
        invariant
            iv == infos_view(infos@),
            iv.len() == infos@.len(),
            k <= iv.len(),
            entries_view(out@) == sort_entries(visible_entries(parent@, iv.take(k as int))),
            sorted_entries(entries_view(out@)),
            prefix@ == join_slash(parent@),
            at_root == (parent@.len() == 0),
        decreases iv.len() - k,
    {
        let ghost prev_visible = visible_entries(parent@, iv.take(k as int));
        proof {
            assert(iv.take(k + 1).drop_last() =~~= iv.take(k as int));
            assert(iv.take(k + 1).last() == iv[k as int]);
            assert(iv[k as int] == infos@[k as int]@);
        }
        let hidden = is_hidden(&infos[k].name);
        if !hidden {
            let name = infos[k].name.clone();
            let path = if at_root {
                infos[k].name.clone()
            } else {
                let mut p = prefix.clone();
                p.append("/");
                p.append(infos[k].name.as_str());
                p
            };
            let fe = FileEntry {
                name,
                is_dir: infos[k].is_dir,
                path,
                size: infos[k].size,
                modified: infos[k].modified,
            };
            proof {
                reveal_strlit("/");
                assert("/"@ =~= seq!['/']);
                assert(fe@ =~~= file_entry_of(parent@, iv[k as int]));
                assert(visible_entries(parent@, iv.take(k + 1)) =~~= prev_visible.push(fe@));
                assert(prev_visible.push(fe@).drop_last() =~~= prev_visible);
                assert(prev_visible.push(fe@).last() == fe@);
                assert(sort_entries(prev_visible.push(fe@)) == insert_entry(
                    sort_entries(prev_visible),
                    fe@,
                ));
            }
            insert_sorted(&mut out, fe);
        } else {
            proof {
                assert(visible_entries(parent@, iv.take(k + 1)) =~~= prev_visible);
            }
        }
        k += 1;
    }
    proof {
        assert(iv.take(iv.len() as int) =~~= iv);
        lemma_sort_entries_sorted(visible_entries(parent@, iv));
        lemma_listing_not_hidden(parent@, iv);
        assert forall|i: int| 0 <= i < out@.len() implies !hidden_name(
            (#[trigger] out@[i])@.name,
        ) by {
            assert(entries_view(out@)[i] == out@[i]@);
        }
        assert forall|i: int, j: int|
            #![trigger out@[i], out@[j]]
            0 <= i < j < out@.len() implies (out@[j]@.is_dir ==> out@[i]@.is_dir) && ((out@[i]@.is_dir
            == out@[j]@.is_dir) ==> lex_le(out@[i]@.name, out@[j]@.name)) by {
            assert(entries_view(out@)[i] == out@[i]@);
            assert(entries_view(out@)[j] == out@[j]@);
            assert(entry_le(entries_view(out@)[i], entries_view(out@)[j]));
        }
    }
    out
}

} // verus!
