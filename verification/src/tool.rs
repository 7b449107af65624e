//! Classification of mangled symbol strings into an owning component name and
//! an ordered sequence of path segments.

use vstd::prelude::*;

verus! {

/// Name of the synthetic tree root.
pub const ROOT_NAME: &'static str = "ROOT";

/// Placeholder owner used when a record carries no symbol text at all.
pub const UNKNOWN_NAME: &'static str = "UNKNOWN";

/// Branch that gathers records whose symbol has no recognisable owner.
pub const SECTIONS_NAME: &'static str = "SECTIONS";

/// Some char of `s` is `c`.
pub open spec fn contains_char(s: Seq<char>, c: char) -> bool {
    exists|i: int| 0 <= i < s.len() && s[i] == c
}

/// Chars `i` and `i + 1` of `s` are both `'.'`.
pub open spec fn double_dot_at(s: Seq<char>, i: int) -> bool {
    0 <= i && i + 1 < s.len() && s[i] == '.' && s[i + 1] == '.'
}

pub open spec fn contains_double_dot(s: Seq<char>) -> bool {
    exists|i: int| double_dot_at(s, i)
}

/// A string can name an owning component when it holds no `".."`, no space,
/// and does not open a bracketed aggregate marker such as `"[123 Others]"`.
pub open spec fn spec_symbol_is_crate(s: Seq<char>) -> bool {
    &&& !contains_double_dot(s)
    &&& !contains_char(s, ' ')
    &&& !(s.len() > 0 && s[0] == '[')
}

/// Collect the chars of a string slice into a vector.
pub fn str_chars(s: &str) -> (r: Vec<char>)
    ensures
        r@ == s@,
{
    let n = s.unicode_len();
    let mut r: Vec<char> = Vec::new();
    let mut i: usize = 0;
    while i < n
        invariant
            i <= n,
            n == s@.len(),
            r@ == s@.subrange(0, i as int),
        decreases n - i,
    {
        r.push(s.get_char(i));
        proof {
            assert(r@ =~= s@.subrange(0, i + 1));
        }
        i = i + 1;
    }
    proof {
        assert(r@ =~= s@);
    }
    r
}

/// Owner-validity check over a char vector.
pub fn chars_is_crate(v: &Vec<char>) -> (r: bool)
    ensures
        r == spec_symbol_is_crate(v@),
{
    let n = v.len();
    if n > 0 && v[0] == '[' {
        return false;
    }
    let mut i: usize = 0;
    while i < n
        invariant
            i <= n,
            n == v@.len(),
            forall|j: int| 0 <= j < i ==> v@[j] != ' ',
            forall|j: int| 0 <= j < i ==> !double_dot_at(v@, j),
        decreases n - i,
    {
        if v[i] == ' ' {
            proof {
                assert(contains_char(v@, ' ')) by {
                    assert(v@[i as int] == ' ');
                }
            }
            return false;
        }
        if v[i] == '.' && i + 1 < n && v[i + 1] == '.' {
            proof {
                assert(double_dot_at(v@, i as int));
            }
            return false;
        }
        i = i + 1;
    }
    true
}

/// Does the text contain `".."` anywhere?
pub fn has_double_dot(v: &Vec<char>) -> (r: bool)
    ensures
        r == contains_double_dot(v@),
{
    let n = v.len();
    let mut i: usize = 0;
    while i < n
        invariant
            i <= n,
            n == v@.len(),
            forall|j: int| 0 <= j < i ==> !double_dot_at(v@, j),
        decreases n - i,
    {
        if v[i] == '.' && i + 1 < n && v[i + 1] == '.' {
            proof {
                assert(double_dot_at(v@, i as int));
            }
            return true;
        }
        i = i + 1;
    }
    false
}

/// Owner-validity check: rejects any string containing `".."` or a space, and
/// any bracketed aggregate marker; accepts everything else.
pub fn symbol_is_crate(s: &str) -> (r: bool)
    ensures
        r == spec_symbol_is_crate(s@),
{
    let v = str_chars(s);
    chars_is_crate(&v)
}

/// Append one char to a string.  Relies on `String::push` of std: the string
/// grows by exactly that char at its end.
pub assume_specification[ String::push ](s: &mut String, c: char)
    ensures
        final(s)@ == old(s)@.push(c),
;

/// Collect a char vector into a string.
pub fn chars_to_string(v: &Vec<char>) -> (r: String)
    ensures
        r@ == v@,
{
    let mut r = String::new();
    let n = v.len();
    let mut i: usize = 0;
    while i < n
        invariant
            i <= n,
            n == v@.len(),
            r@ == v@.subrange(0, i as int),
        decreases n - i,
    {
        r.push(v[i]);
        proof {
            assert(r@ =~= v@.subrange(0, i + 1));
        }
        i = i + 1;
    }
    proof {
        assert(r@ =~= v@);
    }
    r
}

/// Copy of the chars of `v` between `lo` and `hi`.
pub fn subvec(v: &Vec<char>, lo: usize, hi: usize) -> (r: Vec<char>)
    requires
        lo <= hi <= v@.len(),
    ensures
        r@ == v@.subrange(lo as int, hi as int),
{
    let mut r: Vec<char> = Vec::new();
    let mut i: usize = lo;
    while i < hi
        invariant
            lo <= i <= hi <= v@.len(),
            r@ == v@.subrange(lo as int, i as int),
        decreases hi - i,
    {
        r.push(v[i]);
        proof {
            assert(r@ =~= v@.subrange(lo as int, i + 1));
        }
        i = i + 1;
    }
    r
}

/// Whitespace, as trimming of symbol text treats it: the four ASCII forms.
/// Mangled symbols carry no other whitespace, so exotic Unicode spaces are
/// deliberately left to stand as ordinary chars.
pub open spec fn is_ws(c: char) -> bool {
    c == ' ' || c == '\t' || c == '\n' || c == '\r'
}

pub open spec fn spec_trim_start(s: Seq<char>) -> Seq<char>
    decreases s.len(),
{
    if s.len() > 0 && is_ws(s[0]) {
        spec_trim_start(s.drop_first())
    } else {
        s
    }
}

pub open spec fn spec_trim_end(s: Seq<char>) -> Seq<char>
    decreases s.len(),
{
    if s.len() > 0 && is_ws(s.last()) {
        spec_trim_end(s.drop_last())
    } else {
        s
    }
}

/// `s` without leading and trailing whitespace.
pub open spec fn spec_trim(s: Seq<char>) -> Seq<char> {
    spec_trim_end(spec_trim_start(s))
}

proof fn lemma_trim_start_len(s: Seq<char>)
    ensures
        spec_trim_start(s).len() <= s.len(),
    decreases s.len(),
{
    if s.len() > 0 && is_ws(s[0]) {
        lemma_trim_start_len(s.drop_first());
    }
}

proof fn lemma_trim_end_len(s: Seq<char>)
    ensures
        spec_trim_end(s).len() <= s.len(),
    decreases s.len(),
{
    if s.len() > 0 && is_ws(s.last()) {
        lemma_trim_end_len(s.drop_last());
    }
}

pub proof fn lemma_trim_len(s: Seq<char>)
    ensures
        spec_trim(s).len() <= s.len(),
{
    lemma_trim_start_len(s);
    lemma_trim_end_len(spec_trim_start(s));
}

fn is_ws_char(c: char) -> (r: bool)
    ensures
        r == is_ws(c),
{
    c == ' ' || c == '\t' || c == '\n' || c == '\r'
}

/// `v` without leading and trailing whitespace.
pub fn trim_chars(v: &Vec<char>) -> (r: Vec<char>)
    ensures
        r@ == spec_trim(v@),
{
    let n = v.len();
    proof {
        assert(v@.skip(0) =~= v@);
    }
    let mut a: usize = 0;
    while a < n && is_ws_char(v[a])
        invariant
            a <= n,
            n == v@.len(),
            spec_trim_start(v@) == spec_trim_start(v@.skip(a as int)),
        decreases n - a,
    {
        proof {
            assert(v@.skip(a as int).drop_first() =~= v@.skip(a + 1));
        }
        a = a + 1;
    }
    proof {
        assert(spec_trim_start(v@) =~= v@.skip(a as int));
    }
    let mut b: usize = n;
    proof {
        assert(v@.skip(a as int).take(n - a) =~= v@.skip(a as int));
    }
    while b > a && is_ws_char(v[b - 1])
        invariant
            a <= b <= n,
            n == v@.len(),
            spec_trim_start(v@) == v@.skip(a as int),
            spec_trim_end(v@.skip(a as int)) == spec_trim_end(v@.skip(a as int).take(b - a)),
        decreases b,
    {
        proof {
            assert(v@.skip(a as int).take(b - a).drop_last() =~= v@.skip(a as int).take(
                b - 1 - a));
            assert(v@.skip(a as int).take(b - a).last() == v@[b - 1]);
        }
        b = b - 1;
    }
    proof {
        assert(spec_trim_end(v@.skip(a as int)) =~= v@.skip(a as int).take(b - a));
        assert(v@.skip(a as int).take(b - a) =~= v@.subrange(a as int, b as int));
    }
    subvec(v, a, b)
}

/// Compare a char vector with the chars of a string slice.
pub fn chars_eq_str(v: &Vec<char>, lit: &str) -> (r: bool)
    ensures
        r == (v@ == lit@),
{
    let n = lit.unicode_len();
    if v.len() != n {
        proof {
            assert(v@.len() != lit@.len());
        }
        return false;
    }
    let mut i: usize = 0;
    while i < n
        invariant
            i <= n,
            n == lit@.len(),
            n == v@.len(),
            forall|j: int| 0 <= j < i ==> v@[j] == lit@[j],
        decreases n - i,
    {
        if v[i] != lit.get_char(i) {
            return false;
        }
        i = i + 1;
    }
    proof {
        assert(v@ =~= lit@);
    }
    true
}

/// The scalar primitive type names grouped under the standard-library branch.
pub open spec fn spec_is_primitive(s: Seq<char>) -> bool {
    ||| s == "bool"@
    ||| s == "char"@
    ||| s == "f32"@
    ||| s == "f64"@
    ||| s == "i8"@
    ||| s == "i16"@
    ||| s == "i32"@
    ||| s == "i64"@
    ||| s == "i128"@
    ||| s == "isize"@
    ||| s == "u8"@
    ||| s == "u16"@
    ||| s == "u32"@
    ||| s == "u64"@
    ||| s == "u128"@
    ||| s == "usize"@
    ||| s == "str"@
}

/// Is the type one of the scalar primitives?
pub fn is_primitive_type(v: &Vec<char>) -> (r: bool)
    ensures
        r == spec_is_primitive(v@),
{
    chars_eq_str(v, "bool") || chars_eq_str(v, "char") || chars_eq_str(v, "f32") || chars_eq_str(
        v,
        "f64",
    ) || chars_eq_str(v, "i8") || chars_eq_str(v, "i16") || chars_eq_str(v, "i32") || chars_eq_str(
        v,
        "i64",
    ) || chars_eq_str(v, "i128") || chars_eq_str(v, "isize") || chars_eq_str(v, "u8")
        || chars_eq_str(v, "u16") || chars_eq_str(v, "u32") || chars_eq_str(v, "u64")
        || chars_eq_str(v, "u128") || chars_eq_str(v, "usize") || chars_eq_str(v, "str")
}


/// Splitting state machine over a symbol string: separators (`::`) split only
/// at brace/angle depth zero, so `{closure#0}` or `Vec<T>` stay one segment.
pub open spec fn split_rec(s: Seq<char>, i: int, bd: int, ad: int, cur: Seq<char>) -> Seq<Seq<char>>
    decreases s.len() - i,
{
    if i < 0 || i >= s.len() {
        if cur.len() > 0 {
            seq![cur]
        } else {
            Seq::empty()
        }
    } else {
        let c = s[i];
        if c == '{' {
            split_rec(s, i + 1, bd + 1, ad, cur.push(c))
        } else if c == '}' {
            split_rec(s, i + 1, bd - 1, ad, cur.push(c))
        } else if c == '<' {
            split_rec(s, i + 1, bd, ad + 1, cur.push(c))
        } else if c == '>' {
            split_rec(s, i + 1, bd, ad - 1, cur.push(c))
        } else if c == ':' && bd == 0 && ad == 0 && i + 1 < s.len() && s[i + 1] == ':' {
            if cur.len() > 0 {
                seq![cur] + split_rec(s, i + 2, bd, ad, Seq::empty())
            } else {
                split_rec(s, i + 2, bd, ad, Seq::empty())
            }
        } else {
            split_rec(s, i + 1, bd, ad, cur.push(c))
        }
    }
}

/// Trailing `()` and `<>` decorations of a segment, repeatedly stripped.
pub open spec fn spec_clean(p: Seq<char>) -> Seq<char>
    decreases p.len(),
{
    if p.len() >= 2 && ((p[p.len() - 2] == '(' && p[p.len() - 1] == ')') || (p[p.len() - 2]
        == '<' && p[p.len() - 1] == '>')) {
        spec_clean(p.take(p.len() - 2))
    } else {
        p
    }
}

/// Clean every raw segment and drop the ones that end up empty.
pub open spec fn clean_filter(parts: Seq<Seq<char>>) -> Seq<Seq<char>>
    decreases parts.len(),
{
    if parts.len() == 0 {
        Seq::empty()
    } else {
        let rest = clean_filter(parts.drop_last());
        let c = spec_clean(parts.last());
        if c.len() > 0 {
            rest + seq![c]
        } else {
            rest
        }
    }
}

/// Segments of a symbol string: split on `::` at bracket depth zero, cleaned
/// of trailing decorations, empties dropped.
pub open spec fn spec_split_symbol_parts(s: Seq<char>) -> Seq<Seq<char>> {
    clean_filter(split_rec(s, 0, 0, 0, Seq::empty()))
}

/// Strip trailing `()`/`<>` decorations from one segment.
pub fn clean_symbol_part(p: &Vec<char>) -> (r: Vec<char>)
    ensures
        r@ == spec_clean(p@),
{
    let mut r = subvec(p, 0, p.len());
    proof {
        assert(r@ =~= p@);
    }
    loop
        invariant
            spec_clean(r@) == spec_clean(p@),
        ensures
            r@ == spec_clean(p@),
        decreases r@.len(),
    {
        let n = r.len();
        if n >= 2 && ((r[n - 2] == '(' && r[n - 1] == ')') || (r[n - 2] == '<' && r[n - 1]
            == '>')) {
            r.truncate(n - 2);
            proof {
                assert(r@ =~= r@.subrange(0, r@.len() as int));
            }
        } else {
            return r;
        }
    }
}

/// Split a symbol string into segments, keeping brace and angle groups whole.
pub fn split_symbol_parts(v: &Vec<char>) -> (r: Vec<Vec<char>>)
    ensures
        r.deep_view() == spec_split_symbol_parts(v@),
{
    let n = v.len();
    let mut raw: Vec<Vec<char>> = Vec::new();
    let mut cur: Vec<char> = Vec::new();
    let mut bd: i128 = 0;
    let mut ad: i128 = 0;
    let mut i: usize = 0;
    proof {
        assert(raw.deep_view() =~= Seq::<Seq<char>>::empty());
    }
    while i < n
        invariant
            i <= n,
            n == v@.len(),
            -(i as int) <= bd <= i as int,
            -(i as int) <= ad <= i as int,
            split_rec(v@, 0, 0, 0, Seq::empty()) == raw.deep_view() + split_rec(
                v@, i as int, bd as int, ad as int, cur@),
        decreases n - i,
    {
        let ghost rawv = raw.deep_view();
        let c = v[i];
        if c == '{' {
            cur.push(c);
            bd = bd + 1;
            i = i + 1;
        } else if c == '}' {
            cur.push(c);
            bd = bd - 1;
            i = i + 1;
        } else if c == '<' {
            cur.push(c);
            ad = ad + 1;
            i = i + 1;
        } else if c == '>' {
            cur.push(c);
            ad = ad - 1;
            i = i + 1;
        } else if c == ':' && bd == 0 && ad == 0 && i + 1 < n && v[i + 1] == ':' {
            if cur.len() > 0 {
                proof {
                    assert(cur.deep_view() =~= cur@);
                    assert(rawv + (seq![cur@] + split_rec(v@, i + 2, bd as int, ad as int,
                        Seq::empty())) =~~= rawv.push(cur@) + split_rec(v@, i + 2, bd as int,
                        ad as int, Seq::empty()));
                }
                let ghost curv = cur@;
                raw.push(cur);
                proof {
                    assert(raw.deep_view() =~~= rawv.push(curv));
                }
                cur = Vec::new();
            } else {
                proof {
                    assert(cur@ =~= Seq::<char>::empty());
                }
            }
            i = i + 2;
        } else {
            cur.push(c);
            i = i + 1;
        }
    }
    if cur.len() > 0 {
        let ghost rawv = raw.deep_view();
        proof {
            assert(cur.deep_view() =~= cur@);
            assert(rawv + seq![cur@] =~~= rawv.push(cur@));
        }
        let ghost curv = cur@;
        raw.push(cur);
        proof {
            assert(raw.deep_view() =~~= rawv.push(curv));
        }
    } else {
        proof {
            assert(raw.deep_view() + Seq::<Seq<char>>::empty() =~= raw.deep_view());
        }
    }
    let ghost rawv = raw.deep_view();
    proof {
        assert(rawv == split_rec(v@, 0, 0, 0, Seq::empty()));
    }
    let m = raw.len();
    let mut out: Vec<Vec<char>> = Vec::new();
    let mut k: usize = 0;
    proof {
        assert(rawv.subrange(0, 0) =~= Seq::<Seq<char>>::empty());
        assert(out.deep_view() =~= clean_filter(rawv.subrange(0, 0)));
    }
    while k < m
        invariant
            k <= m,
            m == raw@.len(),
            rawv == raw.deep_view(),
            out.deep_view() == clean_filter(rawv.subrange(0, k as int)),
        decreases m - k,
    {
        let cleaned = clean_symbol_part(&raw[k]);
        let ghost outv = out.deep_view();
        proof {
            assert(rawv.subrange(0, k + 1).drop_last() =~= rawv.subrange(0, k as int));
            assert(rawv.subrange(0, k + 1).last() == rawv[k as int]);
            assert(rawv[k as int] == raw@[k as int].deep_view());
            assert(raw@[k as int].deep_view() == raw@[k as int]@);
        }
        if cleaned.len() > 0 {
            let ghost cleanedv = cleaned@;
            out.push(cleaned);
            proof {
                assert(cleanedv == spec_clean(rawv[k as int]));
                assert(out.deep_view() =~~= outv + seq![spec_clean(rawv[k as int])]);
            }
        }
        k = k + 1;
    }
    proof {
        assert(rawv.subrange(0, m as int) =~= rawv);
    }
    out
}


/// Index of the first depth-zero `" as "` of `s` at or after `i` (`s.len()`
/// where there is none); depth counts unclosed `<`.
pub open spec fn find_as_idx(s: Seq<char>, i: int, depth: int) -> int
    decreases s.len() - i,
{
    if i < 0 || i >= s.len() {
        s.len() as int
    } else if s[i] == '<' {
        find_as_idx(s, i + 1, depth + 1)
    } else if s[i] == '>' {
        find_as_idx(s, i + 1, depth - 1)
    } else if s[i] == ' ' && depth == 0 && i + 3 < s.len() && s[i + 1] == 'a' && s[i + 2] == 's'
        && s[i + 3] == ' ' {
        i
    } else {
        find_as_idx(s, i + 1, depth)
    }
}

proof fn lemma_find_as_bounds(s: Seq<char>, i: int, depth: int)
    requires
        0 <= i <= s.len(),
    ensures
        i <= find_as_idx(s, i, depth) <= s.len(),
    decreases s.len() - i,
{
    if i < s.len() {
        if s[i] == '<' {
            lemma_find_as_bounds(s, i + 1, depth + 1);
        } else if s[i] == '>' {
            lemma_find_as_bounds(s, i + 1, depth - 1);
        } else if s[i] == ' ' && depth == 0 && i + 3 < s.len() && s[i + 1] == 'a' && s[i + 2]
            == 's' && s[i + 3] == ' ' {
        } else {
            lemma_find_as_bounds(s, i + 1, depth);
        }
    }
}

/// The type expression of an angle-bracket body: everything before the first
/// depth-zero `" as "`.
pub open spec fn spec_find_type_part(s: Seq<char>) -> Seq<char> {
    s.take(find_as_idx(s, 0, 0))
}

/// Everything of `v` before its first depth-zero `" as "`.
pub fn find_type_part(v: &Vec<char>) -> (r: Vec<char>)
    ensures
        r@ == spec_find_type_part(v@),
        r@.len() <= v@.len(),
{
    let n = v.len();
    let mut i: usize = 0;
    let mut depth: i128 = 0;
    while i < n
        invariant
            i <= n,
            n == v@.len(),
            -(i as int) <= depth <= i as int,
            find_as_idx(v@, 0, 0) == find_as_idx(v@, i as int, depth as int),
        decreases n - i,
    {
        let c = v[i];
        if c == '<' {
            depth = depth + 1;
        } else if c == '>' {
            depth = depth - 1;
        } else if c == ' ' && depth == 0 && n - i > 3 && v[i + 1] == 'a' && v[i + 2] == 's' && v[i
            + 3] == ' ' {
            return subvec(v, 0, i);
        }
        i = i + 1;
    }
    proof {
        assert(v@.take(n as int) =~= v@);
    }
    subvec(v, 0, n)
}

/// Index of the `>` that closes the bracket structure opened at the start of
/// `s`, if the brackets balance; depth counts unclosed `<` before `i`.
pub open spec fn find_close_idx(s: Seq<char>, i: int, depth: int) -> Option<int>
    decreases s.len() - i,
{
    if i < 0 || i >= s.len() {
        None
    } else if s[i] == '<' {
        find_close_idx(s, i + 1, depth + 1)
    } else if s[i] == '>' {
        if depth - 1 == 0 {
            Some(i)
        } else {
            find_close_idx(s, i + 1, depth - 1)
        }
    } else {
        find_close_idx(s, i + 1, depth)
    }
}

proof fn lemma_find_close_bounds(s: Seq<char>, i: int, depth: int)
    requires
        0 <= i <= s.len(),
    ensures
        find_close_idx(s, i, depth) matches Some(j) ==> i <= j < s.len() && s[j] == '>',
        i < s.len() && s[i] == '<' ==> (find_close_idx(s, i, depth) matches Some(j) ==> i < j),
    decreases s.len() - i,
{
    if i < s.len() {
        if s[i] == '<' {
            lemma_find_close_bounds(s, i + 1, depth + 1);
        } else if s[i] == '>' {
            if depth - 1 != 0 {
                lemma_find_close_bounds(s, i + 1, depth - 1);
            }
        } else {
            lemma_find_close_bounds(s, i + 1, depth);
        }
    }
}

/// The `>` closing the bracket structure opened at the start of `v`.
pub fn find_close(v: &Vec<char>) -> (r: Option<usize>)
    ensures
        match r {
            Option::Some(j) => find_close_idx(v@, 0, 0) == Some(j as int) && j < v@.len(),
            Option::None => find_close_idx(v@, 0, 0) is None,
        },
{
    let n = v.len();
    let mut i: usize = 0;
    let mut depth: i128 = 0;
    while i < n
        invariant
            i <= n,
            n == v@.len(),
            -(i as int) <= depth <= i as int,
            find_close_idx(v@, 0, 0) == find_close_idx(v@, i as int, depth as int),
        decreases n - i,
    {
        let c = v[i];
        if c == '<' {
            depth = depth + 1;
        } else if c == '>' {
            if depth - 1 == 0 {
                return Some(i);
            }
            depth = depth - 1;
        }
        i = i + 1;
    }
    None
}

/// Innermost type expression and outermost method suffix of an angle-bracket
/// qualified symbol, unwrapping nested qualifications (`<<T as A>::f as B>::g`
/// keeps `T` and `g`); intermediate delegation hops are dropped.
pub open spec fn spec_extract(s: Seq<char>) -> Option<(Seq<char>, Seq<char>)>
    decreases s.len(),
    via spec_extract_decreases
{
    let t = spec_trim(s);
    if t.len() == 0 || t[0] != '<' {
        None
    } else {
        match find_close_idx(t, 0, 0) {
            Option::None => None,
            Option::Some(cp) => {
                let outer = if cp + 3 <= t.len() && t[cp + 1] == ':' && t[cp + 2] == ':' {
                    t.skip(cp + 3)
                } else {
                    Seq::empty()
                };
                let tp = spec_find_type_part(t.subrange(1, cp));
                if tp.len() > 0 && tp[0] == '<' {
                    match spec_extract(tp) {
                        Option::None => None,
                        Option::Some(pr) => Some((pr.0, outer)),
                    }
                } else {
                    Some((tp, outer))
                }
            },
        }
    }
}

#[via_fn]
proof fn spec_extract_decreases(s: Seq<char>) {
    lemma_trim_len(s);
    let t = spec_trim(s);
    if t.len() > 0 && t[0] == '<' {
        lemma_find_close_bounds(t, 0, 0);
        if let Some(cp) = find_close_idx(t, 0, 0) {
            lemma_find_as_bounds(t.subrange(1, cp), 0, 0);
        }
    }
}

/// Extract the innermost type expression and the outermost method suffix from
/// a nested angle-bracket symbol; the unwrapping walks inward iteratively.
pub fn extract_inner_type_and_outer_method(v: &Vec<char>) -> (r: Option<(Vec<char>, Vec<char>)>)
    ensures
        match r {
            Option::Some(pr) => spec_extract(v@) matches Some(sp) && pr.0@ == sp.0 && pr.1@
                == sp.1,
            Option::None => spec_extract(v@) is None,
        },
{
    let mut cur = subvec(v, 0, v.len());
    proof {
        assert(cur@ =~= v@);
    }
    let mut have_outer = false;
    let mut outer: Vec<char> = Vec::new();
    loop
        invariant
            spec_extract(v@) == (match spec_extract(cur@) {
                Option::None => Option::<(Seq<char>, Seq<char>)>::None,
                Option::Some(pr) => Some((pr.0, if have_outer {
                    outer@
                } else {
                    pr.1
                })),
            }),
        decreases cur@.len(),
    {
        let t = trim_chars(&cur);
        if t.len() == 0 || t[0] != '<' {
            return None;
        }
        let cp = match find_close(&t) {
            Option::Some(cp) => cp,
            Option::None => {
                return None;
            },
        };
        proof {
            lemma_find_close_bounds(t@, 0, 0);
        }
        let this_outer: Vec<char> = if t.len() - cp > 2 && t[cp + 1] == ':' && t[cp + 2] == ':' {
            subvec(&t, cp + 3, t.len())
        } else {
            Vec::new()
        };
        proof {
            if !(cp + 3 <= t@.len() && t@[cp as int + 1] == ':' && t@[cp as int + 2] == ':') {
                assert(this_outer@ =~= Seq::<char>::empty());
            }
        }
        let inner = subvec(&t, 1, cp);
        let tp = find_type_part(&inner);
        proof {
            lemma_trim_len(cur@);
        }
        if !have_outer {
            outer = this_outer;
            have_outer = true;
        }
        if tp.len() > 0 && tp[0] == '<' {
            cur = tp;
        } else {
            return Some((tp, outer));
        }
    }
}

/// Canonical form of a type expression: unit, tuples and slices map to
/// synthetic primitive names, references and raw pointers are stripped, and a
/// scalar primitive is prefixed with the standard-library branch.
pub open spec fn spec_normalize(s: Seq<char>) -> Seq<char>
    decreases s.len(),
    via spec_normalize_decreases
{
    let t = spec_trim(s);
    if t.len() == 2 && t[0] == '(' && t[1] == ')' {
        "std::primitive::unit"@
    } else if t.len() >= 1 && t[0] == '(' && t[t.len() - 1] == ')' {
        "std::primitive::tuple"@
    } else if t.len() >= 1 && t[0] == '[' && t[t.len() - 1] == ']' {
        "std::primitive::slice"@
    } else if t.len() >= 1 && t[0] == '&' {
        spec_normalize(t.drop_first())
    } else if t.len() >= 5 && t[0] == '*' && t[1] == 'm' && t[2] == 'u' && t[3] == 't' && t[4]
        == ' ' {
        spec_normalize(t.skip(5))
    } else if t.len() >= 7 && t[0] == '*' && t[1] == 'c' && t[2] == 'o' && t[3] == 'n' && t[4]
        == 's' && t[5] == 't' && t[6] == ' ' {
        spec_normalize(t.skip(7))
    } else if spec_is_primitive(t) {
        "std::primitive::"@ + t
    } else {
        t
    }
}

#[via_fn]
proof fn spec_normalize_decreases(s: Seq<char>) {
    lemma_trim_len(s);
}

/// Canonical form of a type expression, as chars.
pub fn normalize_type(v: &Vec<char>) -> (r: Vec<char>)
    ensures
        r@ == spec_normalize(v@),
{
    let mut cur = subvec(v, 0, v.len());
    proof {
        assert(cur@ =~= v@);
    }
    loop
        invariant
            spec_normalize(v@) == spec_normalize(cur@),
        decreases cur@.len(),
    {
        let t = trim_chars(&cur);
        proof {
            lemma_trim_len(cur@);
        }
        let n = t.len();
        if n == 2 && t[0] == '(' && t[1] == ')' {
            return str_chars("std::primitive::unit");
        } else if n >= 1 && t[0] == '(' && t[n - 1] == ')' {
            return str_chars("std::primitive::tuple");
        } else if n >= 1 && t[0] == '[' && t[n - 1] == ']' {
            return str_chars("std::primitive::slice");
        } else if n >= 1 && t[0] == '&' {
            cur = subvec(&t, 1, n);
            proof {
                assert(cur@ =~= t@.drop_first());
            }
        } else if n >= 5 && t[0] == '*' && t[1] == 'm' && t[2] == 'u' && t[3] == 't' && t[4]
            == ' ' {
            cur = subvec(&t, 5, n);
            proof {
                assert(cur@ =~= t@.skip(5));
            }
        } else if n >= 7 && t[0] == '*' && t[1] == 'c' && t[2] == 'o' && t[3] == 'n' && t[4] == 's'
            && t[5] == 't' && t[6] == ' ' {
            cur = subvec(&t, 7, n);
            proof {
                assert(cur@ =~= t@.skip(7));
            }
        } else if is_primitive_type(&t) {
            let mut r = str_chars("std::primitive::");
            let mut tc = t;
            r.append(&mut tc);
            return r;
        } else {
            return t;
        }
    }
}


/// Owner and segments of an angle-bracket qualified symbol: the normalized
/// innermost type's segments followed by the outermost method's segments.
pub open spec fn spec_parse_angle(s: Seq<char>) -> Option<(Seq<char>, Seq<Seq<char>>)> {
    match spec_extract(s) {
        Option::None => None,
        Option::Some(pr) => {
            let parts = spec_split_symbol_parts(spec_normalize(pr.0)) + spec_split_symbol_parts(
                pr.1,
            );
            if parts.len() > 1 && spec_symbol_is_crate(parts[0]) {
                Some((parts[0], parts))
            } else {
                None
            }
        },
    }
}

/// Owner and segments of a symbol string, or nothing where no owner can be
/// recognised.  A symbol containing `".."` anywhere is a legacy-mangled form
/// (dots standing for separators) and is always unclassified.
pub open spec fn spec_get_crate_name(s: Seq<char>) -> Option<(Seq<char>, Seq<Seq<char>>)> {
    if contains_double_dot(s) {
        None
    } else if s.len() > 0 && s[0] == '<' {
        spec_parse_angle(s)
    } else {
        let parts = spec_split_symbol_parts(s);
        if parts.len() == 0 {
            None
        } else if !spec_symbol_is_crate(parts[0]) {
            None
        } else if parts.len() > 1 {
            Some((parts[0], parts))
        } else {
            None
        }
    }
}

/// Parse an angle-bracket qualified symbol into owner and segments.
pub fn parse_angle_bracket_symbol(v: &Vec<char>) -> (r: Option<(Vec<char>, Vec<Vec<char>>)>)
    ensures
        match r {
            Option::Some(pr) => spec_parse_angle(v@) matches Some(sp) && pr.0@ == sp.0
                && pr.1.deep_view() == sp.1,
            Option::None => spec_parse_angle(v@) is None,
        },
{
    let (it, om) = match extract_inner_type_and_outer_method(v) {
        Option::Some(pr) => pr,
        Option::None => {
            return None;
        },
    };
    let nt = normalize_type(&it);
    let mut parts = split_symbol_parts(&nt);
    let mut parts2 = split_symbol_parts(&om);
    let ghost adv = parts.deep_view();
    let ghost bdv = parts2.deep_view();
    parts.append(&mut parts2);
    proof {
        assert(parts.deep_view() =~~= adv + bdv);
    }
    if parts.len() > 1 {
        let first = subvec(&parts[0], 0, parts[0].len());
        proof {
            assert(first@ =~= parts.deep_view()[0]);
        }
        if chars_is_crate(&first) {
            return Some((first, parts));
        }
    }
    None
}

/// Extract the owning component name and all path segments from a symbol
/// string, or nothing where the symbol has no recognisable owner.
pub fn get_crate_name(symbols: &str) -> (r: Option<(String, Vec<String>)>)
    ensures
        match r {
            Option::Some(pr) => spec_get_crate_name(symbols@) matches Some(sp) && pr.0@ == sp.0
                && pr.1.deep_view() == sp.1,
            Option::None => spec_get_crate_name(symbols@) is None,
        },
{
    let v = str_chars(symbols);
    if has_double_dot(&v) {
        return None;
    }
    let (first, parts) = if v.len() > 0 && v[0] == '<' {
        match parse_angle_bracket_symbol(&v) {
            Option::Some(pr) => pr,
            Option::None => {
                return None;
            },
        }
    } else {
        let parts = split_symbol_parts(&v);
        if parts.len() == 0 {
            return None;
        }
        let first = subvec(&parts[0], 0, parts[0].len());
        proof {
            assert(first@ =~= parts.deep_view()[0]);
        }
        if !chars_is_crate(&first) {
            return None;
        }
        if parts.len() <= 1 {
            return None;
        }
        (first, parts)
    };
    let name = chars_to_string(&first);
    let m = parts.len();
    let mut out: Vec<String> = Vec::new();
    let mut k: usize = 0;
    while k < m
        invariant
            k <= m,
            m == parts@.len(),
            out@.len() == k,
            forall|j: int| 0 <= j < k ==> out@[j]@ == parts@[j]@,
        decreases m - k,
    {
        out.push(chars_to_string(&parts[k]));
        k = k + 1;
    }
    proof {
        assert(out.deep_view() =~~= parts.deep_view());
    }
    Some((name, out))
}


/// Plain split of `s` on `"::"`, keeping empty pieces, as the raw-symbol
/// fallback path uses it.
pub open spec fn spec_split_dc(s: Seq<char>, i: int, cur: Seq<char>) -> Seq<Seq<char>>
    decreases s.len() - i,
{
    if i < 0 || i >= s.len() {
        seq![cur]
    } else if s[i] == ':' && i + 1 < s.len() && s[i + 1] == ':' {
        seq![cur] + spec_split_dc(s, i + 2, Seq::empty())
    } else {
        spec_split_dc(s, i + 1, cur.push(s[i]))
    }
}

/// Split on `"::"` without any bracket awareness, keeping empty pieces.
pub fn split_double_colon(v: &Vec<char>) -> (r: Vec<Vec<char>>)
    ensures
        r.deep_view() == spec_split_dc(v@, 0, Seq::empty()),
{
    let n = v.len();
    let mut out: Vec<Vec<char>> = Vec::new();
    let mut cur: Vec<char> = Vec::new();
    let mut i: usize = 0;
    proof {
        assert(out.deep_view() =~= Seq::<Seq<char>>::empty());
    }
    while i < n
        invariant
            i <= n,
            n == v@.len(),
            spec_split_dc(v@, 0, Seq::empty()) == out.deep_view() + spec_split_dc(
                v@, i as int, cur@),
        decreases n - i,
    {
        if v[i] == ':' && i + 1 < n && v[i + 1] == ':' {
            let ghost odv = out.deep_view();
            let ghost curv = cur@;
            proof {
                assert(odv + (seq![curv] + spec_split_dc(v@, i + 2, Seq::empty()))
                    =~~= odv.push(curv) + spec_split_dc(v@, i + 2, Seq::empty()));
                assert(cur.deep_view() =~= curv);
            }
            out.push(cur);
            proof {
                assert(out.deep_view() =~~= odv.push(curv));
            }
            cur = Vec::new();
            i = i + 2;
        } else {
            cur.push(v[i]);
            i = i + 1;
        }
    }
    let ghost odv = out.deep_view();
    let ghost curv = cur@;
    proof {
        assert(odv + seq![curv] =~~= odv.push(curv));
        assert(cur.deep_view() =~= curv);
    }
    out.push(cur);
    proof {
        assert(out.deep_view() =~~= odv.push(curv));
    }
    out
}

/// The attribution path of one record: for a classified symbol, the owner's
/// dependency chain, the section, then the symbol's inner segments; for an
/// unclassified one, the sections branch, the section, then the raw pieces.
pub open spec fn spec_path_from_record(
    symbols: Seq<char>,
    sections: Seq<char>,
    pm: Map<Seq<char>, Seq<Seq<char>>>,
) -> Seq<Seq<char>> {
    match spec_get_crate_name(symbols) {
        Option::None => seq![SECTIONS_NAME@, sections] + spec_split_dc(symbols, 0, Seq::empty()),
        Option::Some(pr) => {
            let pkg = if pm.contains_key(pr.0) {
                pm[pr.0]
            } else {
                Seq::<Seq<char>>::empty()
            };
            pkg + seq![sections] + pr.1.drop_first()
        },
    }
}

/// Build the full attribution path for one record from its symbol text, its
/// section, and the dependency resolver.
pub fn get_path_from_record(
    symbols: String,
    sections: String,
    packages: &crate::packages::Packages,
) -> (r: Vec<String>)
    requires
        crate::packages::pkg_unique_keys(packages.parent@),
    ensures
        r.deep_view() == spec_path_from_record(symbols@, sections@, packages.map_view()),
{
    match get_crate_name(symbols.as_str()) {
        Option::None => {
            let mut path: Vec<String> = Vec::new();
            path.push(String::from_str(SECTIONS_NAME));
            path.push(sections);
            let ghost base = path.deep_view();
            proof {
                assert(base =~= seq![SECTIONS_NAME@, sections@]);
            }
            let v = str_chars(symbols.as_str());
            let pieces = split_double_colon(&v);
            let m = pieces.len();
            let mut k: usize = 0;
            while k < m
                invariant
                    k <= m,
                    m == pieces@.len(),
                    path.deep_view() == base + pieces.deep_view().take(k as int),
                decreases m - k,
            {
                let ghost pdv = path.deep_view();
                path.push(chars_to_string(&pieces[k]));
                proof {
                    assert(path.deep_view() =~~= pdv.push(pieces@[k as int]@));
                    assert(base + pieces.deep_view().take(k + 1) =~~= pdv.push(
                        pieces@[k as int]@));
                }
                k = k + 1;
            }
            proof {
                assert(pieces.deep_view().take(m as int) =~= pieces.deep_view());
            }
            path
        },
        Option::Some(pr) => {
            let (crate_name, symbol_parts) = pr;
            let mut path = packages.get_path(crate_name.as_str());
            let ghost pkg = path.deep_view();
            path.push(sections);
            let ghost base = path.deep_view();
            proof {
                assert(base =~~= pkg + seq![sections@]);
            }
            let m = symbol_parts.len();
            let mut k: usize = 1;
            while k < m
                invariant
                    1 <= k <= m,
                    m == symbol_parts@.len(),
                    path.deep_view() == base + symbol_parts.deep_view().subrange(1, k as int),
                decreases m - k,
            {
                let ghost pdv = path.deep_view();
                path.push(symbol_parts[k].clone());
                proof {
                    assert(path.deep_view() =~~= pdv.push(symbol_parts@[k as int]@));
                    assert(base + symbol_parts.deep_view().subrange(1, k + 1) =~~= pdv.push(
                        symbol_parts@[k as int]@));
                }
                k = k + 1;
            }
            proof {
                assert(base + symbol_parts.deep_view().subrange(1, 1) =~= base);
                assert(symbol_parts.deep_view().subrange(1, m as int) =~= symbol_parts.deep_view(
                ).drop_first());
            }
            path
        },
    }
}

} // verus!
