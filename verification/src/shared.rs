//! Shared types of the file-browsing service: the error taxonomy, the
//! client-path sanitizer, and the containment check both handlers rely on.
//!
//! A client path is a slash-separated relative path. The sanitizer splits it
//! into components and accepts it only when every component is "normal":
//! non-empty, not `.`, not `..`, and free of null bytes. The containment
//! check compares canonical paths component-wise, so a sibling directory
//! sharing a string prefix with the storage root can never pass.

use vstd::prelude::*;
use vstd::string::StrSliceExecFns;
use vstd::string::StringExecFns;

verus! {

/// The outcome taxonomy every core operation reports. Each kind maps to one
/// HTTP status; the client never learns more than the kind.
#[derive(Clone, Copy, Debug, PartialEq, Eq, Structural)]
pub enum ServiceError {
    /// The client-supplied path is malformed or attempts traversal.
    InvalidPathSyntax,
    /// The path resolves outside the storage root, or names a hidden file;
    /// reported to the client as forbidden.
    Escaped,
    /// The path does not exist or is not of the required kind.
    NotFound,
    /// The authentication gate refused the request.
    Unauthorized,
    /// The server has no secret configured.
    ServerMisconfigured,
    /// An unexpected filesystem failure interrupted the operation.
    InternalIO,
}

impl ServiceError {
    /// The HTTP status code this error kind is reported with.
    pub fn status_code(&self) -> (code: u16)
        ensures
            code == match *self {
                ServiceError::InvalidPathSyntax => 400u16,
                ServiceError::Escaped => 403u16,
                ServiceError::NotFound => 404u16,
                ServiceError::Unauthorized => 401u16,
                ServiceError::ServerMisconfigured => 500u16,
                ServiceError::InternalIO => 500u16,
            },
    {
        match *self {
            ServiceError::InvalidPathSyntax => 400,
            ServiceError::Escaped => 403,
            ServiceError::NotFound => 404,
            ServiceError::Unauthorized => 401,
            ServiceError::ServerMisconfigured => 500,
            ServiceError::InternalIO => 500,
        }
    }
}

/// One visible child reported by a directory listing: its base name, kind,
/// client-visible relative path, byte size, and modification time in whole
/// seconds since the epoch.
pub struct FileEntry {
    pub name: String,
    pub is_dir: bool,
    pub path: String,
    pub size: u64,
    pub modified: u64,
}

/// The mathematical content of a `FileEntry`.
#[verifier::ext_equal]
pub struct FileEntryV {
    pub name: Seq<char>,
    pub is_dir: bool,
    pub path: Seq<char>,
    pub size: u64,
    pub modified: u64,
}

impl View for FileEntry {
    type V = FileEntryV;

    open spec fn view(&self) -> FileEntryV {
        FileEntryV {
            name: self.name@,
            is_dir: self.is_dir,
            path: self.path@,
            size: self.size,
            modified: self.modified,
        }
    }
}

/// A hidden entry: its base name begins with a literal dot.
pub open spec fn hidden_name(name: Seq<char>) -> bool {
    name.len() > 0 && name[0] == '.'
}

/// Decides whether a base name is hidden.
pub fn is_hidden(name: &String) -> (r: bool)
    ensures
        r == hidden_name(name@),
{
    name.as_str().unicode_len() > 0 && name.as_str().get_char(0) == '.'
}

/// The views of a sequence of strings, as a sequence of character sequences.
pub open spec fn strs_view(v: Seq<String>) -> Seq<Seq<char>> {
    v.map_values(|c: String| c@)
}

/// Splitting a character sequence at every `/`. The result always has at
/// least one element; separators at the ends or doubled yield empty
/// components rather than disappearing.
pub open spec fn split_slash(s: Seq<char>) -> Seq<Seq<char>>
    decreases s.len(),
{
    if s.len() == 0 {
        seq![Seq::<char>::empty()]
    } else if s.last() == '/' {
        split_slash(s.drop_last()).push(Seq::<char>::empty())
    } else {
        let prev = split_slash(s.drop_last());
        prev.update(prev.len() - 1, prev.last().push(s.last()))
    }
}

pub proof fn lemma_split_slash_len(s: Seq<char>)
    ensures
        split_slash(s).len() >= 1,
    decreases s.len(),
{
    if s.len() > 0 {
        lemma_split_slash_len(s.drop_last());
    }
}

/// A path component is normal when it is non-empty, is neither `.` nor `..`,
/// and contains no null byte.
pub open spec fn component_wf(c: Seq<char>) -> bool {
    &&& c.len() > 0
    &&& !(c.len() == 1 && c[0] == '.')
    &&& !(c.len() == 2 && c[0] == '.' && c[1] == '.')
    &&& forall|i: int| 0 <= i < c.len() ==> c[i] != '\0'
}

/// A non-empty raw path is well formed when every slash-separated component
/// is normal. An absolute path makes its first component empty, and a
/// doubled or trailing slash makes some component empty, so all of those are
/// excluded here along with `.`, `..`, and null bytes.
pub open spec fn path_wf(s: Seq<char>) -> bool {
    forall|i: int| 0 <= i < split_slash(s).len() ==> component_wf(#[trigger] split_slash(s)[i])
}

/// A sanitized client path: a sequence of normal components, interpreted
/// relative to the storage root. The empty sequence denotes the root itself.
pub struct RelativePath {
    components: Vec<String>,
}

impl View for RelativePath {
    type V = Seq<Seq<char>>;

    closed spec fn view(&self) -> Seq<Seq<char>> {
        strs_view(self.components@)
    }
}

impl RelativePath {
    /// Every component of a sanitized path is normal.
    pub open spec fn wf(&self) -> bool {
        forall|i: int| 0 <= i < self@.len() ==> component_wf(#[trigger] self@[i])
    }

    /// Whether this path denotes the storage root itself.
    pub fn is_root(&self) -> (r: bool)
        ensures
            r == (self@.len() == 0),
    {
        self.components.len() == 0
    }

    /// The components, for callers that must address the filesystem.
    pub fn components(&self) -> (r: &Vec<String>)
        ensures
            strs_view(r@) == self@,
    {
        &self.components
    }
}

fn component_ok(c: &str) -> (r: bool)
    ensures
        r == component_wf(c@),
{
    let n = c.unicode_len();
    if n == 0 {
        return false;
    }
    if n == 1 && c.get_char(0) == '.' {
        return false;
    }
    if n == 2 && c.get_char(0) == '.' && c.get_char(1) == '.' {
        return false;
    }
    let mut i: usize = 0;
    while i < n
        invariant
            n == c@.len(),
            i <= n,
            forall|j: int| 0 <= j < i ==> c@[j] != '\0',
        decreases n - i,
    {
        if c.get_char(i) == '\0' {
            return false;
        }
        i += 1;
    }
    true
}

fn split_on_slash(raw: &str) -> (r: Vec<String>)
    ensures
        strs_view(r@) == split_slash(raw@),
        r@.len() >= 1,
{
    let n = raw.unicode_len();
    let mut comps: Vec<String> = Vec::new();
    let mut start: usize = 0;
    let mut i: usize = 0;
    proof {
        assert(raw@.take(0) =~= Seq::<char>::empty());
        assert(strs_view(comps@) =~~= split_slash(raw@.take(0)).drop_last());
        assert(raw@.subrange(0, 0) =~= split_slash(raw@.take(0)).last());
    }
    while i < n
        invariant
            n == raw@.len(),
            start <= i <= n,
            strs_view(comps@) == split_slash(raw@.take(i as int)).drop_last(),
            raw@.subrange(start as int, i as int) == split_slash(raw@.take(i as int)).last(),
        decreases n - i,
    {
        let ghost prev = split_slash(raw@.take(i as int));
        proof {
            lemma_split_slash_len(raw@.take(i as int));
            assert(raw@.take(i + 1).drop_last() =~= raw@.take(i as int));
        }
        let c = raw.get_char(i);
        if c == '/' {
            let comp = raw.substring_char(start, i).to_owned();
            proof {
                assert(split_slash(raw@.take(i + 1)) == prev.push(Seq::<char>::empty()));
                assert(strs_view(comps@.push(comp)) =~~= strs_view(comps@).push(comp@));
                assert(prev.drop_last().push(prev.last()) =~~= prev);
                assert(prev.push(Seq::<char>::empty()).drop_last() =~~= prev);
                assert(raw@.subrange(i + 1, i + 1) =~= Seq::<char>::empty());
            }
            comps.push(comp);
            start = i + 1;
        } else {
            let ghost next = split_slash(raw@.take(i + 1));
            proof {
                assert(next == prev.update(prev.len() - 1, prev.last().push(raw@[i as int])));
                assert(next.drop_last() =~~= prev.drop_last());
                assert(raw@.subrange(start as int, i + 1) =~= raw@.subrange(
                    start as int,
                    i as int,
                ).push(raw@[i as int]));
                assert(next.last() == prev.last().push(raw@[i as int]));
            }
        }
        i += 1;
    }
    proof {
        assert(raw@.take(n as int) =~= raw@);
        lemma_split_slash_len(raw@);
    }
    let comp = raw.substring_char(start, n).to_owned();
    proof {
        assert(strs_view(comps@.push(comp)) =~~= strs_view(comps@).push(comp@));
        assert(split_slash(raw@).drop_last().push(split_slash(raw@).last()) =~~= split_slash(
            raw@,
        ));
    }
    comps.push(comp);
    comps
}

/// Converts a raw client path into a sanitized relative path, or rejects it.
///
/// The empty input is accepted and denotes the storage root; it is the only
/// input whose result has no components. Any non-empty input is accepted
/// exactly when every slash-separated component is normal, and the accepted
/// components are kept in order.
pub fn sanitize_path(raw: &str) -> (r: Option<RelativePath>)
    ensures
        raw@.len() == 0 ==> r is Some,
        raw@.len() > 0 ==> (r is Some <==> path_wf(raw@)),
        r matches Some(p) ==> p.wf(),
        raw@.len() == 0 ==> (r matches Some(p) ==> p@ == Seq::<Seq<char>>::empty()),
        raw@.len() > 0 ==> (r matches Some(p) ==> p@ == split_slash(raw@) && p@.len() >= 1),
{
    if raw.unicode_len() == 0 {
        let empty = RelativePath { components: Vec::new() };
        proof {
            assert(empty@ =~~= Seq::<Seq<char>>::empty());
        }
        return Some(empty);
    }
    let comps = split_on_slash(raw);
    let mut i: usize = 0;
    while i < comps.len()
        invariant
            strs_view(comps@) == split_slash(raw@),
            raw@.len() > 0,
            i <= comps@.len(),
            forall|j: int| 0 <= j < i ==> component_wf(#[trigger] split_slash(raw@)[j]),
        decreases comps@.len() - i,
    {
        if !component_ok(comps[i].as_str()) {
            proof {
                assert(!component_wf(split_slash(raw@)[i as int]));
            }
            return None;
        }
        i += 1;
    }
    Some(RelativePath { components: comps })
}

/// Converts a raw client path as `sanitize_path` does, reporting a rejection
/// as `InvalidPathSyntax`. This decision involves no filesystem access.
pub fn sanitize_request(raw: &str) -> (r: Result<RelativePath, ServiceError>)
    ensures
        r is Ok <==> (raw@.len() == 0 || path_wf(raw@)),
        r matches Ok(p) ==> p.wf(),
        raw@.len() == 0 ==> (r matches Ok(p) ==> p@ == Seq::<Seq<char>>::empty()),
        raw@.len() > 0 ==> (r matches Ok(p) ==> p@ == split_slash(raw@) && p@.len() >= 1),
        r matches Err(e) ==> e == ServiceError::InvalidPathSyntax,
{
    match sanitize_path(raw) {
        Some(p) => Ok(p),
        None => Err(ServiceError::InvalidPathSyntax),
    }
}

/// Joining character sequences with `/` between them; the inverse direction
/// of `split_slash` for well-formed paths.
pub open spec fn join_slash(parts: Seq<Seq<char>>) -> Seq<char>
    decreases parts.len(),
{
    if parts.len() == 0 {
        Seq::empty()
    } else if parts.len() == 1 {
        parts[0]
    } else {
        join_slash(parts.drop_last()) + seq!['/'] + parts.last()
    }
}

/// Renders a sanitized path with forward slashes, the form the API reports
/// to clients on every platform.
pub fn path_to_web_string(path: &RelativePath) -> (r: String)
    ensures
        r@ == join_slash(path@),
{
    let mut out = String::new();
    let mut i: usize = 0;
    proof {
        assert(out@ =~= join_slash(path@.take(0)));
    }
    while i < path.components.len()
        invariant
            path@.len() == path.components@.len(),
            i <= path@.len(),
            out@ == join_slash(path@.take(i as int)),
        decreases path@.len() - i,
    {
        if i > 0 {
            out.append("/");
        }
        out.append(path.components[i].as_str());
        proof {
            reveal_strlit("/");
            assert(path@.take(i + 1).drop_last() =~~= path@.take(i as int));
            assert(path@.take(i + 1).last() == path@[i as int]);
            if i == 0 {
                assert(out@ =~= join_slash(path@.take(1)));
            } else {
                assert("/"@ =~= seq!['/']);
                assert(out@ =~= join_slash(path@.take(i + 1)));
            }
        }
        i += 1;
    }
    proof {
        assert(path@.take(path@.len() as int) =~~= path@);
    }
    out
}

/// Law: joining the components a raw path was split into reproduces the
/// raw path. The paths a listing reports are therefore exactly the client's
/// own path syntax extended by each entry's name.
pub proof fn lemma_join_split_round_trip(s: Seq<char>)
    ensures
        join_slash(split_slash(s)) == s,
    decreases s.len(),
{
    if s.len() == 0 {
        assert(join_slash(split_slash(s)) =~= s);
    } else {
        let d = s.drop_last();
        let prev = split_slash(d);
        lemma_split_slash_len(d);
        lemma_join_split_round_trip(d);
        if s.last() == '/' {
            let whole = prev.push(Seq::<char>::empty());
            assert(whole.drop_last() =~~= prev);
            assert(join_slash(whole) == join_slash(prev) + seq!['/'] + whole.last());
            assert(join_slash(prev) + seq!['/'] + Seq::<char>::empty() =~= s);
        } else {
            let whole = prev.update(prev.len() - 1, prev.last().push(s.last()));
            if prev.len() == 1 {
                assert(join_slash(whole) == whole[0]);
                assert(whole[0] == prev[0].push(s.last()));
                assert(join_slash(prev) == prev[0]);
                assert(d.push(s.last()) =~= s);
            } else {
                assert(whole.drop_last() =~~= prev.drop_last());
                assert(whole.last() == prev.last().push(s.last()));
                assert(join_slash(whole) == join_slash(prev.drop_last()) + seq!['/']
                    + prev.last().push(s.last()));
                assert(join_slash(prev) == join_slash(prev.drop_last()) + seq!['/'] + prev.last());
                assert(join_slash(prev.drop_last()) + seq!['/'] + prev.last().push(s.last()) =~= (
                join_slash(prev.drop_last()) + seq!['/'] + prev.last()).push(s.last()));
                assert(d.push(s.last()) =~= s);
            }
        }
    }
}

/// Component-wise containment: the root's components are a prefix of the
/// target's. A raw string prefix is never consulted, so `/data/foobar` is
/// not contained in a root `/data/foo`.
pub open spec fn contained_in(root: Seq<Seq<char>>, target: Seq<Seq<char>>) -> bool {
    root.len() <= target.len() && (forall|i: int|
        0 <= i < root.len() ==> root[i] == #[trigger] target[i])
}

/// Decides component-wise containment of one canonical path in another.
pub fn is_contained(root: &Vec<String>, target: &Vec<String>) -> (r: bool)
    ensures
        r == contained_in(strs_view(root@), strs_view(target@)),
{
    if root.len() > target.len() {
        return false;
    }
    let mut i: usize = 0;
    while i < root.len()
        invariant
            i <= root@.len() <= target@.len(),
            forall|j: int| 0 <= j < i ==> strs_view(root@)[j] == strs_view(target@)[j],
        decreases root@.len() - i,
    {
        if root[i] != target[i] {
            proof {
                assert(strs_view(root@)[i as int] != strs_view(target@)[i as int]);
            }
            return false;
        }
        i += 1;
    }
    true
}

/// Decides containment from the canonical resolutions of the storage root
/// and of the requested path, each `None` when resolution failed. A missing
/// target is not found; a root that fails to resolve is an internal fault; a
/// target that resolves outside the root has escaped — never "not found".
pub fn verify_contained(
    canonical_root: &Option<Vec<String>>,
    canonical_target: &Option<Vec<String>>,
) -> (r: Result<(), ServiceError>)
    ensures
        canonical_target is None ==> r == Err::<(), ServiceError>(ServiceError::NotFound),
        canonical_target is Some && canonical_root is None ==> r == Err::<(), ServiceError>(
            ServiceError::InternalIO,
        ),
        canonical_root matches Some(rt) ==> (canonical_target matches Some(tg) ==> r == (
        if contained_in(strs_view(rt@), strs_view(tg@)) {
            Ok::<(), ServiceError>(())
        } else {
            Err::<(), ServiceError>(ServiceError::Escaped)
        })),
{
    match canonical_target {
        None => Err(ServiceError::NotFound),
        Some(tg) => match canonical_root {
            None => Err(ServiceError::InternalIO),
            Some(rt) => if is_contained(rt, tg) {
                Ok(())
            } else {
                Err(ServiceError::Escaped)
            },
        },
    }
}

proof fn lemma_split_char_in_component(s: Seq<char>, c: char)
    requires
        s.contains(c),
        c != '/',
    ensures
        exists|i: int| 0 <= i < split_slash(s).len() && #[trigger] split_slash(s)[i].contains(c),
    decreases s.len(),
{
    lemma_split_slash_len(s);
    if s.len() > 0 {
        let prev = split_slash(s.drop_last());
        lemma_split_slash_len(s.drop_last());
        if s.last() == c {
            let newlast = prev.last().push(s.last());
            assert(newlast[newlast.len() - 1] == c);
            assert(newlast.contains(c));
            assert(split_slash(s)[prev.len() - 1] == newlast);
        } else {
            let idx = choose|idx: int| 0 <= idx < s.len() && s[idx] == c;
            assert(idx < s.len() - 1);
            assert(s.drop_last()[idx] == c);
            assert(s.drop_last().contains(c));
            lemma_split_char_in_component(s.drop_last(), c);
            let j = choose|j: int| 0 <= j < prev.len() && #[trigger] prev[j].contains(c);
            if s.last() == '/' {
                assert(split_slash(s)[j] == prev[j]);
            } else {
                if j < prev.len() - 1 {
                    assert(split_slash(s)[j] == prev[j]);
                } else {
                    let newlast = prev.last().push(s.last());
                    let k = choose|k: int| 0 <= k < prev[j].len() && prev[j][k] == c;
                    assert(newlast[k] == c);
                    assert(newlast.contains(c));
                    assert(split_slash(s)[j] == newlast);
                }
            }
        }
    }
}

/// Law: a raw path containing a null byte is rejected: the null byte lies
/// in some component, which is therefore not normal.
pub proof fn lemma_null_byte_rejected(s: Seq<char>)
    requires
        s.contains('\0'),
    ensures
        !path_wf(s),
{
    lemma_split_char_in_component(s, '\0');
    let i = choose|i: int|
        0 <= i < split_slash(s).len() && #[trigger] split_slash(s)[i].contains('\0');
    let comp = split_slash(s)[i];
    let k = choose|k: int| 0 <= k < comp.len() && comp[k] == '\0';
    assert(!component_wf(comp));
}

proof fn lemma_split_first_empty(s: Seq<char>)
    requires
        s.len() > 0,
        s[0] == '/',
    ensures
        split_slash(s).len() >= 2,
        split_slash(s)[0].len() == 0,
    decreases s.len(),
{
    if s.len() == 1 {
        assert(s.last() == s[0]);
        assert(s.drop_last() =~= Seq::<char>::empty());
    } else {
        let d = s.drop_last();
        assert(d[0] == s[0]);
        lemma_split_first_empty(d);
        let prev = split_slash(d);
        if s.last() == '/' {
            assert(split_slash(s)[0] == prev[0]);
        } else {
            assert(split_slash(s)[0] == prev[0]);
            assert(split_slash(s).len() == prev.len());
        }
    }
}

/// Law: an absolute path — one bearing the root marker — is rejected: its
/// first component is empty, and an empty component is not normal.
pub proof fn lemma_absolute_rejected(s: Seq<char>)
    requires
        s.len() > 0,
        s[0] == '/',
    ensures
        !path_wf(s),
{
    lemma_split_first_empty(s);
    assert(!component_wf(split_slash(s)[0]));
}

/// Law: a path one of whose components is `.` or `..` is rejected.
pub proof fn lemma_dot_component_rejected(s: Seq<char>, i: int)
    requires
        0 <= i < split_slash(s).len(),
        split_slash(s)[i] =~= seq!['.'] || split_slash(s)[i] =~= seq!['.', '.'],
    ensures
        !path_wf(s),
{
    let comp = split_slash(s)[i];
    if comp =~= seq!['.'] {
        assert(comp.len() == 1 && comp[0] == '.');
    } else {
        assert(comp.len() == 2 && comp[0] == '.' && comp[1] == '.');
    }
    assert(!component_wf(comp));
}

/// Law: a path reached by appending components under the root is contained.
/// Sanitized components joined below the canonical root therefore pass the
/// containment check whenever resolution adds no indirection.
pub proof fn lemma_contained_under_root(root: Seq<Seq<char>>, rest: Seq<Seq<char>>)
    ensures
        contained_in(root, root + rest),
{
    assert forall|i: int| 0 <= i < root.len() implies root[i] == #[trigger] (root + rest)[i] by {}
}

} // verus!
