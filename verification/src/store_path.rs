//! Syntactic validation of top-level Nix store paths.
use vstd::prelude::*;

verus! {

/// The store directory prefix `/nix/store/`, as characters.
pub open spec fn store_dir() -> Seq<char> {
    seq!['/', 'n', 'i', 'x', '/', 's', 't', 'o', 'r', 'e', '/']
}

/// Length of `store_dir()`.
pub open spec fn store_dir_len() -> int {
    11
}

/// Length of the hash part of a store path name.
pub open spec fn hash_len() -> int {
    32
}

/// Characters of Nix's base-32 alphabet (`0-9`, `a-z` without `e`, `o`, `u`, `t`).
pub open spec fn is_hash_char(c: char) -> bool {
    ||| ('0' <= c && c <= '9')
    ||| ('a' <= c && c <= 'd')
    ||| ('f' <= c && c <= 'n')
    ||| ('p' <= c && c <= 's')
    ||| ('v' <= c && c <= 'z')
}

/// Characters allowed in the name part: ASCII alphanumerics and `+-._?=`.
pub open spec fn is_name_char(c: char) -> bool {
    ||| ('0' <= c && c <= '9')
    ||| ('a' <= c && c <= 'z')
    ||| ('A' <= c && c <= 'Z')
    ||| c == '+'
    ||| c == '-'
    ||| c == '.'
    ||| c == '_'
    ||| c == '?'
    ||| c == '='
}

/// The pieces of `s` between `/` separators, in order, empty ones included.
pub open spec fn pieces(s: Seq<char>) -> Seq<Seq<char>>
    decreases s.len(),
{
    if s.len() == 0 {
        seq![Seq::<char>::empty()]
    } else if s.last() == '/' {
        pieces(s.drop_last()).push(Seq::<char>::empty())
    } else {
        let p = pieces(s.drop_last());
        p.update(p.len() - 1, p.last().push(s.last()))
    }
}

/// A piece that names a path component: not empty and not `.`.
pub open spec fn is_component(p: Seq<char>) -> bool {
    p.len() > 0 && p != seq!['.']
}

/// The pieces that name components, in order.
pub open spec fn components_of(ps: Seq<Seq<char>>) -> Seq<Seq<char>>
    decreases ps.len(),
{
    if ps.len() == 0 {
        ps
    } else if is_component(ps.last()) {
        components_of(ps.drop_last()).push(ps.last())
    } else {
        components_of(ps.drop_last())
    }
}

/// The components of the path `s`: its pieces without empty ones and `.`.
pub open spec fn components(s: Seq<char>) -> Seq<Seq<char>> {
    components_of(pieces(s))
}

/// `s` is an absolute path whose parent is `/nix/store`: it starts with
/// `/` and its components are `nix`, `store` and one more.
pub open spec fn is_top_level(s: Seq<char>) -> bool {
    &&& s.len() > 0
    &&& s[0] == '/'
    &&& components(s).len() == 3
    &&& components(s)[0] == seq!['n', 'i', 'x']
    &&& components(s)[1] == seq!['s', 't', 'o', 'r', 'e']
}

/// `s` is spelled `/nix/store/<hash>-<name>` with a 32-character base-32
/// hash and a non-empty name made of name characters.
pub open spec fn has_store_path_form(s: Seq<char>) -> bool {
    &&& s.len() > store_dir_len() + hash_len() + 1
    &&& s.take(store_dir_len()) == store_dir()
    &&& forall|i: int| store_dir_len() <= i < store_dir_len() + hash_len() ==> is_hash_char(#[trigger] s[i])
    &&& s[store_dir_len() + hash_len()] == '-'
    &&& forall|i: int| store_dir_len() + hash_len() < i < s.len() ==> is_name_char(#[trigger] s[i])
}

/// `s` is a store path: top-level and of the store path form.
pub open spec fn is_store_path(s: Seq<char>) -> bool {
    is_top_level(s) && has_store_path_form(s)
}

/// Why a string is not a store path.
#[derive(Debug, Clone, Copy, PartialEq, Eq, Structural)]
pub enum PathError {
    /// The value is not directly inside `/nix/store`.
    NotTopLevel,
    /// The value is inside `/nix/store` but its name is malformed.
    Invalid,
}

/// The outcome that `validate_path` gives for `s`.
pub open spec fn path_check(s: Seq<char>) -> Result<(), PathError> {
    if !is_top_level(s) {
        Err(PathError::NotTopLevel)
    } else if !is_store_path(s) {
        Err(PathError::Invalid)
    } else {
        Ok(())
    }
}

/// A syntactically valid top-level store path.
#[derive(Debug, Clone)]
pub struct StorePath {
    path: String,
}

impl View for StorePath {
    type V = Seq<char>;

    closed spec fn view(&self) -> Seq<char> {
        self.path@
    }
}

impl StorePath {
    /// The well-formedness of a store path value.
    pub open spec fn wf(&self) -> bool {
        is_store_path(self@)
    }

    /// The path as text.
    pub fn as_str(&self) -> (r: &str)
        ensures
            r@ == self@,
    {
        self.path.as_str()
    }

    /// A copy of this path.
    pub fn copy(&self) -> (r: StorePath)
        ensures
            r@ == self@,
    {
        StorePath { path: self.path.clone() }
    }

    /// The store path spelled by `path`, which is known to be one.
    pub(crate) fn from_valid(path: String) -> (r: StorePath)
        requires
            is_store_path(path@),
        ensures
            r@ == path@,
    {
        StorePath { path }
    }
}

/// The characters of `s`, in order.
pub(crate) fn chars_of(s: &str) -> (r: Vec<char>)
    ensures
        r@ == s@,
{
    broadcast use vstd::string::group_string_axioms;
    let mut out: Vec<char> = Vec::new();
    for c in it: s.chars()
        invariant
            it.seq() == s@,
            out@ == it.seq().take(it.index() as int),
    {
        assert(it.seq().take(it.index() + 1) =~= it.seq().take(it.index() as int).push(c));
        out.push(c);
    }
    assert(s@.take(s@.len() as int) =~= s@);
    out
}

fn hash_char(c: char) -> (r: bool)
    ensures
        r == is_hash_char(c),
{
    ('0' <= c && c <= '9') || ('a' <= c && c <= 'd') || ('f' <= c && c <= 'n') || ('p' <= c
        && c <= 's') || ('v' <= c && c <= 'z')
}

fn name_char(c: char) -> (r: bool)
    ensures
        r == is_name_char(c),
{
    ('0' <= c && c <= '9') || ('a' <= c && c <= 'z') || ('A' <= c && c <= 'Z') || c == '+' || c
        == '-' || c == '.' || c == '_' || c == '?' || c == '='
}

/// Whether `p` spells `t`.
fn spells(p: &Vec<char>, t: &[char]) -> (r: bool)
    ensures
        r == (p@ == t@),
{
    if p.len() != t.len() {
        return false;
    }
    let n = p.len();
    for k in 0..n
        invariant
            n == p@.len(),
            n == t@.len(),
            forall|q: int| 0 <= q < k ==> p@[q] == t@[q],
    {
        if p[k] != t[k] {
            return false;
        }
    }
    assert(p@ =~= t@);
    true
}

/// Whether the piece `p` names a component.
fn component(p: &Vec<char>) -> (r: bool)
    ensures
        r == is_component(p@),
{
    let dot = ['.'];
    proof {
        assert(dot@ =~= seq!['.']);
    }
    p.len() > 0 && !spells(p, &dot)
}

/// The pieces of a text that ends in a non-separator extend the last piece.
proof fn lemma_pieces_step(s: Seq<char>, i: int, done: Seq<Seq<char>>, cur: Seq<char>)
    requires
        0 <= i < s.len(),
        pieces(s.take(i)) == done.push(cur),
    ensures
        s[i] == '/' ==> pieces(s.take(i + 1)) == done.push(cur).push(Seq::<char>::empty()),
        s[i] != '/' ==> pieces(s.take(i + 1)) == done.push(cur.push(s[i])),
{
    assert(s.take(i + 1).drop_last() =~= s.take(i));
    assert(s.take(i + 1).last() == s[i]);
    if s[i] != '/' {
        assert(done.push(cur).update(done.len() as int, cur.push(s[i])) =~= done.push(cur.push(s[i])));
    }
}

/// Adding a piece adds it to the components when it names one.
proof fn lemma_components_push(ps: Seq<Seq<char>>, p: Seq<char>)
    ensures
        components_of(ps.push(p)) == (if is_component(p) {
            components_of(ps).push(p)
        } else {
            components_of(ps)
        }),
{
    assert(ps.push(p).drop_last() =~= ps);
}

/// Decides `is_top_level(s)` for the characters `cs` of `s`.
fn top_level(cs: &Vec<char>) -> (r: bool)
    ensures
        r == is_top_level(cs@),
{
    let ghost s = cs@;
    let n = cs.len();
    let nix = ['n', 'i', 'x'];
    let store = ['s', 't', 'o', 'r', 'e'];
    proof {
        assert(nix@ =~= seq!['n', 'i', 'x']);
        assert(store@ =~= seq!['s', 't', 'o', 'r', 'e']);
        assert(s.take(0) =~= Seq::<char>::empty());
        assert(seq![Seq::<char>::empty()] =~= Seq::<Seq<char>>::empty().push(Seq::<char>::empty()));
    }
    let ghost mut done: Seq<Seq<char>> = Seq::empty();
    let mut cur: Vec<char> = Vec::new();
    let mut count: usize = 0;
    let mut first_ok = false;
    let mut second_ok = false;
    for i in 0..n
        invariant
            n == s.len(),
            s == cs@,
            nix@ == seq!['n', 'i', 'x'],
            store@ == seq!['s', 't', 'o', 'r', 'e'],
            pieces(s.take(i as int)) == done.push(cur@),
            count == components_of(done).len(),
            count <= i,
            count >= 1 ==> (first_ok <==> components_of(done)[0] == nix@),
            count >= 2 ==> (second_ok <==> components_of(done)[1] == store@),
    {
        let c = cs[i];
        proof {
            lemma_pieces_step(s, i as int, done, cur@);
            lemma_components_push(done, cur@);
        }
        if c == '/' {
            if component(&cur) {
                if count == 0 {
                    first_ok = spells(&cur, &nix);
                } else if count == 1 {
                    second_ok = spells(&cur, &store);
                }
                count = count + 1;
            }
            proof {
                done = done.push(cur@);
            }
            cur = Vec::new();
        } else {
            cur.push(c);
        }
    }
    proof {
        assert(s.take(n as int) =~= s);
        lemma_components_push(done, cur@);
    }
    let mut three = count == 3;
    if component(&cur) {
        if count == 0 {
            first_ok = spells(&cur, &nix);
        } else if count == 1 {
            second_ok = spells(&cur, &store);
        }
        three = count == 2;
    }
    n > 0 && cs[0] == '/' && three && first_ok && second_ok
}

/// Decides `has_store_path_form(s)` for the characters `cs` of `s`.
fn store_path_form(cs: &Vec<char>) -> (r: bool)
    ensures
        r == has_store_path_form(cs@),
{
    let ghost s = cs@;
    let n = cs.len();
    if n <= 44 {
        return false;
    }
    let prefix = ['/', 'n', 'i', 'x', '/', 's', 't', 'o', 'r', 'e', '/'];
    assert(prefix@ =~= store_dir());
    let mut k: usize = 0;
    while k < 11
        invariant
            n == s.len(),
            cs@ == s,
            n > 44,
            prefix@ == store_dir(),
            k <= 11,
            forall|j: int| 0 <= j < k ==> s[j] == store_dir()[j],
        decreases 11 - k,
    {
        if cs[k] != prefix[k] {
            assert(s.take(11)[k as int] != store_dir()[k as int]);
            return false;
        }
        k += 1;
    }
    assert(s.take(11) =~= store_dir());
    let mut k: usize = 11;
    while k < 43
        invariant
            n == s.len(),
            cs@ == s,
            n > 44,
            s.take(11) == store_dir(),
            11 <= k <= 43,
            forall|j: int| 11 <= j < k ==> is_hash_char(#[trigger] s[j]),
        decreases 43 - k,
    {
        if !hash_char(cs[k]) {
            return false;
        }
        k += 1;
    }
    if cs[43] != '-' {
        return false;
    }
    let mut k: usize = 44;
    while k < n
        invariant
            n == s.len(),
            cs@ == s,
            n > 44,
            s.take(11) == store_dir(),
            forall|j: int| 11 <= j < 43 ==> is_hash_char(#[trigger] s[j]),
            s[43] == '-',
            44 <= k <= n,
            forall|j: int| 44 <= j < k ==> is_name_char(#[trigger] s[j]),
        decreases n - k,
    {
        if !name_char(cs[k]) {
            return false;
        }
        k += 1;
    }
    true
}

/// Checks that `value` is a top-level store path `/nix/store/<hash>-<name>`.
///
/// `NotTopLevel` is answered when the value is not an absolute path whose
/// parent is `/nix/store` (components compared, empty ones and `.` ignored);
/// `Invalid` when it is, but is not spelled `/nix/store/` followed by a
/// 32-character base-32 hash, a `-` and a non-empty name.
pub fn validate_path(value: &str) -> (r: Result<StorePath, PathError>)
    ensures
        match r {
            Ok(p) => path_check(value@) == Ok::<(), PathError>(()) && p@ == value@ && p.wf(),
            Err(e) => path_check(value@) == Err::<(), PathError>(e),
        },
{
    let cs = chars_of(value);
    if !top_level(&cs) {
        return Err(PathError::NotTopLevel);
    }
    if !store_path_form(&cs) {
        return Err(PathError::Invalid);
    }
    Ok(StorePath { path: value.to_owned() })
}

/// Whether a snapshot root can be used as written: it already is a store
/// path. Any other spelling of a root (a trailing `/`, a link such as
/// `/run/current-system`) is to be resolved to its canonical path first.
pub fn root_is_resolved(root: &str) -> (r: bool)
    ensures
        r == is_store_path(root@),
{
    validate_path(root).is_ok()
}

/// Every piece count is at least one.
proof fn lemma_pieces_nonempty(s: Seq<char>)
    ensures
        pieces(s).len() >= 1,
    decreases s.len(),
{
    if s.len() > 0 {
        lemma_pieces_nonempty(s.drop_last());
    }
}

/// Appending text without `/` extends the last piece.
proof fn lemma_pieces_extend(p: Seq<char>, t: Seq<char>)
    requires
        forall|i: int| 0 <= i < t.len() ==> t[i] != '/',
    ensures
        pieces(p + t) == pieces(p).update(pieces(p).len() - 1, pieces(p).last() + t),
    decreases t.len(),
{
    lemma_pieces_nonempty(p);
    if t.len() == 0 {
        assert(p + t =~= p);
        assert(pieces(p).last() + t =~= pieces(p).last());
        assert(pieces(p).update(pieces(p).len() - 1, pieces(p).last()) =~= pieces(p));
    } else {
        let t1 = t.drop_last();
        lemma_pieces_extend(p, t1);
        assert((p + t).drop_last() =~= p + t1);
        assert((p + t).last() == t.last());
        let q = pieces(p + t1);
        assert(q.last() =~= pieces(p).last() + t1);
        assert((pieces(p).last() + t1).push(t.last()) =~= pieces(p).last() + t);
        assert(q.update(q.len() - 1, q.last().push(t.last())) =~= pieces(p).update(
            pieces(p).len() - 1,
            pieces(p).last() + t,
        ));
    }
}

/// A text of the store path form is an entry directly inside `/nix/store`.
proof fn lemma_store_form_is_top_level(s: Seq<char>)
    requires
        has_store_path_form(s),
    ensures
        is_top_level(s),
{
    let e = Seq::<char>::empty();
    let nix = seq!['n', 'i', 'x'];
    let store = seq!['s', 't', 'o', 'r', 'e'];
    let slash = seq!['/'];
    let rest = s.skip(11);
    assert(s =~= store_dir() + rest);
    // `/`
    assert(slash.drop_last() =~= e);
    assert(pieces(e) == seq![e]);
    assert(pieces(slash) =~= seq![e, e]);
    // `/nix`
    lemma_pieces_extend(slash, nix);
    assert(pieces(slash + nix) =~= seq![e, nix]);
    // `/nix/`
    let a = slash + nix + slash;
    assert(a.drop_last() =~= slash + nix);
    assert(pieces(a) =~= seq![e, nix, e]);
    // `/nix/store`
    lemma_pieces_extend(a, store);
    assert(pieces(a + store) =~= seq![e, nix, store]);
    // `/nix/store/`
    let b = a + store + slash;
    assert(b.drop_last() =~= a + store);
    assert(pieces(b) =~= seq![e, nix, store, e]);
    assert(b =~= store_dir());
    // The rest holds no `/`.
    assert forall|i: int| 0 <= i < rest.len() implies rest[i] != '/' by {
        assert(rest[i] == s[i + 11]);
        if i + 11 < 43 {
            assert(is_hash_char(s[i + 11]));
        } else if i + 11 > 43 {
            assert(is_name_char(s[i + 11]));
        }
    }
    lemma_pieces_extend(b, rest);
    assert(e + rest =~= rest);
    assert(pieces(s) =~= seq![e, nix, store, rest]);
    // The components.
    assert(is_hash_char(s[11]));
    assert(rest[0] == s[11]);
    assert(is_component(rest));
    let ps = seq![e, nix, store, rest];
    lemma_components_push(Seq::<Seq<char>>::empty(), e);
    assert(Seq::<Seq<char>>::empty().push(e) =~= seq![e]);
    assert(components_of(Seq::<Seq<char>>::empty()) =~= Seq::<Seq<char>>::empty());
    lemma_components_push(seq![e], nix);
    assert(seq![e].push(nix) =~= seq![e, nix]);
    assert(nix.len() > 0 && nix[0] == 'n');
    assert(nix != seq!['.']);
    lemma_components_push(seq![e, nix], store);
    assert(seq![e, nix].push(store) =~= seq![e, nix, store]);
    assert(store != seq!['.']);
    lemma_components_push(seq![e, nix, store], rest);
    assert(seq![e, nix, store].push(rest) =~= ps);
    assert(components_of(ps) =~= seq![nix, store, rest]);
}

/// `validate_path` accepts exactly the texts `/nix/store/<hash>-<name>`
/// whose hash is 32 characters of `0-9`, `a-d`, `f-n`, `p-s`, `v-z` (no
/// `e`, `o`, `u`, `t`) and whose name is non-empty and made of ASCII
/// letters `a-z` and `A-Z`, digits and `+-._?=`.
pub proof fn lemma_validate_path_accepts_exactly(s: Seq<char>)
    ensures
        path_check(s) == Ok::<(), PathError>(()) <==> {
            &&& s.len() >= 45
            &&& s.take(11) == seq!['/', 'n', 'i', 'x', '/', 's', 't', 'o', 'r', 'e', '/']
            &&& forall|i: int|
                11 <= i < 43 ==> {
                    let c = #[trigger] s[i];
                    ||| ('0' <= c && c <= '9')
                    ||| ('a' <= c && c <= 'd')
                    ||| ('f' <= c && c <= 'n')
                    ||| ('p' <= c && c <= 's')
                    ||| ('v' <= c && c <= 'z')
                }
            &&& s[43] == '-'
            &&& forall|i: int|
                44 <= i < s.len() ==> {
                    let c = #[trigger] s[i];
                    ||| ('a' <= c && c <= 'z')
                    ||| ('A' <= c && c <= 'Z')
                    ||| ('0' <= c && c <= '9')
                    ||| c == '+'
                    ||| c == '-'
                    ||| c == '.'
                    ||| c == '_'
                    ||| c == '?'
                    ||| c == '='
                }
        },
{
    if has_store_path_form(s) {
        lemma_store_form_is_top_level(s);
    }
}

/// The pieces of `/nix/store/` followed by text without `/`.
proof fn lemma_pieces_under_store(rest: Seq<char>)
    requires
        forall|i: int| 0 <= i < rest.len() ==> rest[i] != '/',
    ensures
        pieces(store_dir() + rest) == seq![
            Seq::<char>::empty(),
            seq!['n', 'i', 'x'],
            seq!['s', 't', 'o', 'r', 'e'],
            rest,
        ],
{
    let e = Seq::<char>::empty();
    let nix = seq!['n', 'i', 'x'];
    let store = seq!['s', 't', 'o', 'r', 'e'];
    let slash = seq!['/'];
    assert(slash.drop_last() =~= e);
    assert(pieces(e) == seq![e]);
    assert(pieces(slash) =~= seq![e, e]);
    lemma_pieces_extend(slash, nix);
    assert(pieces(slash + nix) =~= seq![e, nix]);
    let a = slash + nix + slash;
    assert(a.drop_last() =~= slash + nix);
    assert(pieces(a) =~= seq![e, nix, e]);
    lemma_pieces_extend(a, store);
    assert(pieces(a + store) =~= seq![e, nix, store]);
    let b = a + store + slash;
    assert(b.drop_last() =~= a + store);
    assert(pieces(b) =~= seq![e, nix, store, e]);
    assert(b =~= store_dir());
    lemma_pieces_extend(b, rest);
    assert(e + rest =~= rest);
    assert(pieces(store_dir() + rest) =~= seq![e, nix, store, rest]);
}

/// The components of pieces `["", "nix", "store", r]` and of the same
/// followed by an empty piece are `["nix", "store", r]` when `r` names one.
proof fn lemma_components_under_store(rest: Seq<char>, trailing: bool)
    requires
        is_component(rest),
    ensures
        ({
            let e = Seq::<char>::empty();
            let ps = seq![e, seq!['n', 'i', 'x'], seq!['s', 't', 'o', 'r', 'e'], rest];
            let ps2 = if trailing { ps.push(e) } else { ps };
            components_of(ps2) == seq![seq!['n', 'i', 'x'], seq!['s', 't', 'o', 'r', 'e'], rest]
        }),
{
    let e = Seq::<char>::empty();
    let nix = seq!['n', 'i', 'x'];
    let store = seq!['s', 't', 'o', 'r', 'e'];
    let ps = seq![e, nix, store, rest];
    lemma_components_push(Seq::<Seq<char>>::empty(), e);
    assert(Seq::<Seq<char>>::empty().push(e) =~= seq![e]);
    assert(components_of(Seq::<Seq<char>>::empty()) =~= Seq::<Seq<char>>::empty());
    lemma_components_push(seq![e], nix);
    assert(seq![e].push(nix) =~= seq![e, nix]);
    assert(nix[0] == 'n' && nix != seq!['.']);
    lemma_components_push(seq![e, nix], store);
    assert(seq![e, nix].push(store) =~= seq![e, nix, store]);
    assert(store != seq!['.']);
    lemma_components_push(seq![e, nix, store], rest);
    assert(seq![e, nix, store].push(rest) =~= ps);
    assert(components_of(ps) =~= seq![nix, store, rest]);
    lemma_components_push(ps, e);
}

/// Which rejection a text gets, on explicit spellings: a text that does not
/// start with `/` is not top-level; `/nix/store/` followed by a non-empty
/// text without `/` other than `.`, with or without a trailing `/`, is
/// top-level, so it is accepted or rejected as `Invalid`; with one more
/// such component after it (`/nix/store/<rest>/<sub>`) it is not top-level.
pub proof fn lemma_validate_path_error_kinds(s: Seq<char>, rest: Seq<char>, sub: Seq<char>)
    ensures
        (s.len() == 0 || s[0] != '/') ==> path_check(s) == Err::<(), PathError>(PathError::NotTopLevel),
        ({
            let sd = seq!['/', 'n', 'i', 'x', '/', 's', 't', 'o', 'r', 'e', '/'];
            &&& rest.len() > 0
            &&& rest != seq!['.']
            &&& forall|i: int| 0 <= i < rest.len() ==> rest[i] != '/'
            &&& (s == sd + rest || s == sd + rest + seq!['/'])
        }) ==> path_check(s) != Err::<(), PathError>(PathError::NotTopLevel),
        ({
            let sd = seq!['/', 'n', 'i', 'x', '/', 's', 't', 'o', 'r', 'e', '/'];
            &&& rest.len() > 0
            &&& rest != seq!['.']
            &&& forall|i: int| 0 <= i < rest.len() ==> rest[i] != '/'
            &&& sub.len() > 0
            &&& sub != seq!['.']
            &&& forall|i: int| 0 <= i < sub.len() ==> sub[i] != '/'
            &&& s == sd + rest + seq!['/'] + sub
        }) ==> path_check(s) == Err::<(), PathError>(PathError::NotTopLevel),
{
    if rest.len() > 0 && rest != seq!['.'] && (forall|i: int| 0 <= i < rest.len() ==> rest[i] != '/') {
        let e = Seq::<char>::empty();
        lemma_pieces_under_store(rest);
        let sd = seq!['/', 'n', 'i', 'x', '/', 's', 't', 'o', 'r', 'e', '/'];
        assert(sd =~= store_dir());
        if s == sd + rest {
            lemma_components_under_store(rest, false);
            assert(s[0] == '/');
        }
        if s == sd + rest + seq!['/'] {
            let t = store_dir() + rest;
            assert(s.drop_last() =~= t);
            assert(s.last() == '/');
            assert(pieces(s) == pieces(t).push(e));
            lemma_components_under_store(rest, true);
            assert(s[0] == '/');
        }
        if sub.len() > 0 && sub != seq!['.'] && (forall|i: int| 0 <= i < sub.len() ==> sub[i] != '/')
            && s == sd + rest + seq!['/'] + sub {
            let t = store_dir() + rest;
            let u = t + seq!['/'];
            assert(u.drop_last() =~= t);
            assert(u.last() == '/');
            assert(pieces(u) == pieces(t).push(e));
            lemma_pieces_extend(u, sub);
            assert(s =~= u + sub);
            assert(e + sub =~= sub);
            let ps = seq![e, seq!['n', 'i', 'x'], seq!['s', 't', 'o', 'r', 'e'], rest];
            assert(pieces(s) =~= ps.push(sub));
            lemma_components_under_store(rest, false);
            lemma_components_push(ps, sub);
            assert(components(s).len() == 4);
        }
    }
}

} // verus!
