//! Small text utilities: path prefixes, comma-separated lists, trimming.

use vstd::prelude::*;
use vstd::string::*;

verus! {

/// Characters that `char::is_whitespace` accepts (the Unicode `White_Space` property).
pub open spec fn is_ws(c: char) -> bool {
    c == '\t' || c == '\n' || c == '\x0B' || c == '\x0C' || c == '\r' || c == ' '
        || c == '\u{85}' || c == '\u{A0}' || c == '\u{1680}'
        || ('\u{2000}' <= c && c <= '\u{200A}') || c == '\u{2028}' || c == '\u{2029}'
        || c == '\u{202F}' || c == '\u{205F}' || c == '\u{3000}'
}

/// Which characters a trim removes: slashes, or white space.
pub open spec fn trimmed_char(c: char, slash: bool) -> bool {
    if slash {
        c == '/'
    } else {
        is_ws(c)
    }
}

/// `s` without its leading trimmed characters.
pub open spec fn trim_start(s: Seq<char>, slash: bool) -> Seq<char>
    decreases s.len(),
{
    if s.len() > 0 && trimmed_char(s[0], slash) {
        trim_start(s.drop_first(), slash)
    } else {
        s
    }
}

/// `s` without its trailing trimmed characters.
pub open spec fn trim_end(s: Seq<char>, slash: bool) -> Seq<char>
    decreases s.len(),
{
    if s.len() > 0 && trimmed_char(s.last(), slash) {
        trim_end(s.drop_last(), slash)
    } else {
        s
    }
}

/// `s` without leading and trailing trimmed characters.
pub open spec fn trim(s: Seq<char>, slash: bool) -> Seq<char> {
    trim_end(trim_start(s, slash), slash)
}

/// A path prefix in normal form: exactly one leading slash, no trailing slash.
pub open spec fn path_prefix_of(s: Seq<char>) -> Seq<char> {
    seq!['/'] + trim(s, true)
}

/// The pieces of `s` between occurrences of `sep`; always at least one piece.
pub open spec fn split_on(s: Seq<char>, sep: char) -> Seq<Seq<char>>
    decreases s.len(),
{
    if s.len() == 0 {
        seq![Seq::<char>::empty()]
    } else {
        let init = split_on(s.drop_last(), sep);
        if s.last() == sep {
            init.push(Seq::<char>::empty())
        } else {
            init.update(init.len() - 1, init.last().push(s.last()))
        }
    }
}

/// The trimmed, non-empty pieces, each kept once, in order of first occurrence.
pub open spec fn key_set(pieces: Seq<Seq<char>>) -> Seq<Seq<char>>
    decreases pieces.len(),
{
    if pieces.len() == 0 {
        Seq::empty()
    } else {
        let init = key_set(pieces.drop_last());
        let t = trim(pieces.last(), false);
        if t.len() == 0 || init.contains(t) {
            init
        } else {
            init.push(t)
        }
    }
}

/// The keys of a comma-separated parameter list.
pub open spec fn params_set_of(s: Seq<char>) -> Seq<Seq<char>> {
    key_set(split_on(s, ','))
}

/// The views of a vector of strings.
pub open spec fn views(v: Seq<String>) -> Seq<Seq<char>> {
    v.map_values(|s: String| s@)
}

proof fn lemma_key_set_no_dups(pieces: Seq<Seq<char>>)
    ensures
        key_set(pieces).no_duplicates(),
        forall|i: int| 0 <= i < key_set(pieces).len() ==> key_set(pieces)[i].len() > 0,
    decreases pieces.len(),
{
    if pieces.len() > 0 {
        lemma_key_set_no_dups(pieces.drop_last());
    }
}

fn is_trimmed_char(c: char, slash: bool) -> (r: bool)
    ensures
        r == trimmed_char(c, slash),
{
    if slash {
        c == '/'
    } else {
        c == '\t' || c == '\n' || c == '\x0B' || c == '\x0C' || c == '\r' || c == ' '
            || c == '\u{85}' || c == '\u{A0}' || c == '\u{1680}'
            || ('\u{2000}' <= c && c <= '\u{200A}') || c == '\u{2028}' || c == '\u{2029}'
            || c == '\u{202F}' || c == '\u{205F}' || c == '\u{3000}'
    }
}

/// Removes leading and trailing slashes (or white space) from `s`.
pub fn trim_str(s: &str, slash: bool) -> (r: String)
    ensures
        r@ == trim(s@, slash),
{
    let n = s.unicode_len();
    let mut i: usize = 0;
    proof {
        assert(s@.subrange(0, n as int) =~= s@);
    }
    while i < n && is_trimmed_char(s.get_char(i), slash)
        invariant
            n == s@.len(),
            i <= n,
            trim_start(s@, slash) == trim_start(s@.subrange(i as int, n as int), slash),
        decreases n - i,
    {
        assert(s@.subrange(i as int, n as int).drop_first() =~= s@.subrange(i + 1, n as int));
        i = i + 1;
    }
    let mut j: usize = n;
    while j > i && is_trimmed_char(s.get_char(j - 1), slash)
        invariant
            n == s@.len(),
            i <= j <= n,
            trim(s@, slash) == trim_end(s@.subrange(i as int, j as int), slash),
        decreases j,
    {
        assert(s@.subrange(i as int, j as int).drop_last() =~= s@.subrange(i as int, j - 1));
        j = j - 1;
    }
    String::from_str(s.substring_char(i, j))
}

/// Strips all but one leading slash and all trailing slashes.
pub fn parse_path_prefix(path_prefix: &str) -> (r: String)
    ensures
        r@ == path_prefix_of(path_prefix@),
{
    let mut r = String::from_str("/");
    let t = trim_str(path_prefix, true);
    r.append(t.as_str());
    proof {
        reveal_strlit("/");
    }
    r
}

/// Splits `s` at every `sep`.
pub fn split_char(s: &str, sep: char) -> (r: Vec<String>)
    ensures
        views(r@) == split_on(s@, sep),
{
    let n = s.unicode_len();
    let mut done: Vec<String> = Vec::new();
    let mut start: usize = 0;
    let mut i: usize = 0;
    proof {
        assert(views(done@) =~= Seq::<Seq<char>>::empty());
        assert(s@.subrange(0, 0) =~= Seq::<char>::empty());
    }
    while i < n
        invariant
            n == s@.len(),
            start <= i <= n,
            views(done@).push(s@.subrange(start as int, i as int)) == split_on(
                s@.subrange(0, i as int),
                sep,
            ),
        decreases n - i,
    {
        let c = s.get_char(i);
        proof {
            assert(s@.subrange(0, i + 1).drop_last() =~= s@.subrange(0, i as int));
        }
        if c == sep {
            let ghost old_done = done@;
            let piece = String::from_str(s.substring_char(start, i));
            done.push(piece);
            start = i + 1;
            proof {
                assert(s@.subrange(0, i + 1).last() == c);
                assert(views(done@) =~= views(old_done).push(piece@));
                assert(s@.subrange(start as int, i + 1) =~= Seq::<char>::empty());
                assert(views(done@).push(s@.subrange(start as int, i + 1)) =~= split_on(
                    s@.subrange(0, i + 1),
                    sep,
                ));
            }
        } else {
            proof {
                assert(s@.subrange(0, i + 1).last() == c);
                assert(s@.subrange(start as int, i + 1) =~= s@.subrange(start as int, i as int).push(c));
                assert(views(done@).push(s@.subrange(start as int, i + 1)) =~= split_on(
                    s@.subrange(0, i + 1),
                    sep,
                ));
            }
        }
        i = i + 1;
    }
    proof {
        assert(s@.subrange(0, n as int) =~= s@);
    }
    let ghost old_done = done@;
    let last = String::from_str(s.substring_char(start, n));
    done.push(last);
    proof {
        assert(views(done@) =~= views(old_done).push(last@));
    }
    done
}

/// Whether two strings hold the same characters.
pub fn str_eq(a: &str, b: &str) -> (r: bool)
    ensures
        r == (a@ == b@),
{
    let n = a.unicode_len();
    if n != b.unicode_len() {
        return false;
    }
    let mut i: usize = 0;
    while i < n
        invariant
            n == a@.len() == b@.len(),
            i <= n,
            forall|k: int| 0 <= k < i ==> a@[k] == b@[k],
        decreases n - i,
    {
        if a.get_char(i) != b.get_char(i) {
            return false;
        }
        i = i + 1;
    }
    proof {
        assert(a@ =~= b@);
    }
    true
}

/// Whether `v` holds a string equal to `s`.
pub fn contains_str(v: &Vec<String>, s: &str) -> (r: bool)
    ensures
        r == views(v@).contains(s@),
{
    let mut i: usize = 0;
    while i < v.len()
        invariant
            i <= v.len(),
            forall|k: int| 0 <= k < i ==> v@[k]@ != s@,
        decreases v.len() - i,
    {
        if str_eq(v[i].as_str(), s) {
            proof {
                assert(views(v@)[i as int] == s@);
            }
            return true;
        }
        i = i + 1;
    }
    proof {
        if views(v@).contains(s@) {
            let k = choose|k: int| 0 <= k < views(v@).len() && views(v@)[k] == s@;
            assert(v@[k]@ == s@);
        }
    }
    false
}

/// Parses a comma-separated set of client parameter keys: each key is trimmed
/// of white space, empty keys are dropped, and each key is kept once, in order
/// of first occurrence.
pub fn parse_params_set(params: &str) -> (r: Vec<String>)
    ensures
        views(r@) == params_set_of(params@),
        views(r@).no_duplicates(),
{
    let pieces = split_char(params, ',');
    let mut keys: Vec<String> = Vec::new();
    let mut i: usize = 0;
    while i < pieces.len()
        invariant
            i <= pieces.len(),
            views(keys@) == key_set(views(pieces@).subrange(0, i as int)),
        decreases pieces.len() - i,
    {
        proof {
            assert(views(pieces@).subrange(0, i + 1).drop_last() =~= views(pieces@).subrange(0, i as int));
            assert(views(pieces@).subrange(0, i + 1).last() == pieces@[i as int]@);
        }
        let t = trim_str(pieces[i].as_str(), false);
        let ghost old_keys = keys@;
        if !t.as_str().is_empty() && !contains_str(&keys, t.as_str()) {
            keys.push(t);
            proof {
                assert(views(keys@) =~= views(old_keys).push(t@));
            }
        }
        i = i + 1;
    }
    proof {
        assert(views(pieces@).subrange(0, pieces.len() as int) =~= views(pieces@));
        lemma_key_set_no_dups(views(pieces@));
    }
    keys
}

/// Lexicographic order by character code, the order of `String`'s `Ord`.
pub open spec fn lex_lt(a: Seq<char>, b: Seq<char>) -> bool
    decreases a.len(),
{
    if a.len() == 0 {
        b.len() > 0
    } else if b.len() == 0 {
        false
    } else if a[0] != b[0] {
        a[0] < b[0]
    } else {
        lex_lt(a.drop_first(), b.drop_first())
    }
}

/// Each member comes strictly before the next.
pub open spec fn strictly_sorted(s: Seq<Seq<char>>) -> bool {
    forall|i: int, j: int| 0 <= i < j < s.len() ==> lex_lt(s[i], s[j])
}

pub proof fn lemma_lex_total(a: Seq<char>, b: Seq<char>)
    ensures
        a != b ==> lex_lt(a, b) || lex_lt(b, a),
    decreases a.len(),
{
    if a.len() > 0 && b.len() > 0 && a[0] == b[0] {
        lemma_lex_total(a.drop_first(), b.drop_first());
        if a.drop_first() == b.drop_first() {
            assert(a.drop_first().len() == b.drop_first().len());
            assert(a.len() == b.len());
            assert(a =~= b) by {
                assert forall|i: int| 0 <= i < a.len() implies a[i] == b[i] by {
                    if i > 0 {
                        assert(a[i] == a.drop_first()[i - 1]);
                        assert(b[i] == b.drop_first()[i - 1]);
                    }
                }
            }
        }
    } else if a.len() == 0 && b.len() == 0 {
        assert(a =~= b);
    }
}

pub proof fn lemma_lex_transitive(a: Seq<char>, b: Seq<char>, c: Seq<char>)
    requires
        lex_lt(a, b),
        lex_lt(b, c),
    ensures
        lex_lt(a, c),
    decreases a.len(),
{
    if a.len() > 0 && b.len() > 0 && c.len() > 0 && a[0] == b[0] && b[0] == c[0] {
        lemma_lex_transitive(a.drop_first(), b.drop_first(), c.drop_first());
    }
}

/// Whether `a` comes strictly before `b`.
pub fn str_lt(a: &str, b: &str) -> (r: bool)
    ensures
        r == lex_lt(a@, b@),
{
    let n = a.unicode_len();
    let m = b.unicode_len();
    let mut i: usize = 0;
    assert(a@.skip(0) =~= a@);
    assert(b@.skip(0) =~= b@);
    while i < n && i < m
        invariant
            n == a@.len(),
            m == b@.len(),
            i <= n,
            i <= m,
            lex_lt(a@, b@) == lex_lt(a@.skip(i as int), b@.skip(i as int)),
        decreases n - i,
    {
        let x = a.get_char(i);
        let y = b.get_char(i);
        assert(a@.skip(i as int)[0] == x);
        assert(b@.skip(i as int)[0] == y);
        if x != y {
            return x < y;
        }
        assert(a@.skip(i as int).drop_first() =~= a@.skip(i + 1));
        assert(b@.skip(i as int).drop_first() =~= b@.skip(i + 1));
        i = i + 1;
    }
    i < m && i == n
}

/// Inserts `x` into a strictly sorted vector that does not hold it, keeping it strictly sorted.
pub fn insert_sorted(v: &mut Vec<String>, x: String)
    requires
        strictly_sorted(views(old(v)@)),
        !views(old(v)@).contains(x@),
    ensures
        strictly_sorted(views(final(v)@)),
        forall|y: Seq<char>| #[trigger] views(final(v)@).contains(y) <==> views(old(v)@).contains(y) || y == x@,
{
    let ghost s = views(v@);
    let mut k: usize = 0;
    while k < v.len() && !str_lt(x.as_str(), v[k].as_str())
        invariant
            s == views(v@),
            k <= v.len(),
            forall|i: int| 0 <= i < k ==> lex_lt(s[i], x@),
            !s.contains(x@),
        decreases v.len() - k,
    {
        proof {
            assert(s[k as int] != x@);
            lemma_lex_total(s[k as int], x@);
        }
        k = k + 1;
    }
    let ghost xv = x@;
    v.insert(k, x);
    proof {
        let t = views(v@);
        assert(t =~= s.insert(k as int, xv));
        assert forall|i: int, j: int| 0 <= i < j < t.len() implies lex_lt(t[i], t[j]) by {
            if k < s.len() {
                assert(lex_lt(xv, s[k as int]));
            }
            if j < k {
            } else if j == k {
            } else if i < k {
                assert(lex_lt(xv, s[k as int]));
                if j - 1 > k {
                    assert(lex_lt(s[k as int], s[j - 1]));
                    lemma_lex_transitive(xv, s[k as int], s[j - 1]);
                }
                lemma_lex_transitive(s[i], xv, s[j - 1]);
            } else if i == k {
                if j - 1 > k {
                    assert(lex_lt(s[k as int], s[j - 1]));
                    lemma_lex_transitive(xv, s[k as int], s[j - 1]);
                }
            } else {
                assert(lex_lt(s[i - 1], s[j - 1]));
            }
        }
        assert forall|y: Seq<char>| #[trigger] t.contains(y) <==> s.contains(y) || y == xv by {
            if t.contains(y) {
                let i = choose|i: int| 0 <= i < t.len() && t[i] == y;
                if i < k {
                    assert(s[i] == y);
                } else if i > k {
                    assert(s[i - 1] == y);
                }
            }
            if s.contains(y) {
                let i = choose|i: int| 0 <= i < s.len() && s[i] == y;
                if i < k {
                    assert(t[i] == y);
                } else {
                    assert(t[i + 1] == y);
                }
            }
            if y == xv {
                assert(t[k as int] == y);
            }
        }
    }
}

} // verus!
