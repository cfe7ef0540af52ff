//! Character-level text operations: the model of `&str` that the parsers
//! work on is the sequence of its chars, held as a `Vec<char>`.
use vstd::prelude::*;

verus! {

broadcast use vstd::std_specs::iter::group_iter_axioms, vstd::string::group_string_axioms;

/// The chars of a string, in order.
pub fn chars_of(s: &str) -> (v: Vec<char>)
    ensures
        v@ == s@,
{
    let mut v: Vec<char> = Vec::new();
    for c in it: s.chars()
        invariant
            v@ == it.seq().take(it.index() as int),
            it.seq() == s@,
    {
        v.push(c);
    }
    assert(v@ =~= s@);
    v
}

/// `String::push`: appends one char to the end of the string.
#[verifier::external_body]
fn string_push(s: &mut String, c: char)
    ensures
        final(s)@ == old(s)@.push(c),
{
    s.push(c)
}

/// The string made of the given chars.
pub fn string_of(v: &Vec<char>) -> (s: String)
    ensures
        s@ == v@,
{
    let mut s = String::new();
    let mut i: usize = 0;
    while i < v.len()
        invariant
            i <= v.len(),
            s@ == v@.take(i as int),
        decreases v.len() - i,
    {
        string_push(&mut s, v[i]);
        i += 1;
        assert(s@ =~= v@.take(i as int));
    }
    assert(v@.take(v.len() as int) =~= v@);
    s
}


/// `char::is_whitespace`: the chars with the Unicode `White_Space` property.
pub open spec fn is_ws(c: char) -> bool {
    let u = c as u32;
    ||| 0x09 <= u <= 0x0D
    ||| u == 0x20
    ||| u == 0x85
    ||| u == 0xA0
    ||| u == 0x1680
    ||| 0x2000 <= u <= 0x200A
    ||| u == 0x2028
    ||| u == 0x2029
    ||| u == 0x202F
    ||| u == 0x205F
    ||| u == 0x3000
}

/// Whether `c` is whitespace in the sense of `char::is_whitespace`.
pub fn is_whitespace(c: char) -> (r: bool)
    ensures
        r == is_ws(c),
{
    let u = c as u32;
    (0x09 <= u && u <= 0x0D) || u == 0x20 || u == 0x85 || u == 0xA0 || u == 0x1680 || (0x2000
        <= u && u <= 0x200A) || u == 0x2028 || u == 0x2029 || u == 0x202F || u == 0x205F || u
        == 0x3000
}

/// Among ASCII chars, exactly the space and the controls tab, line feed,
/// vertical tab, form feed and carriage return are whitespace: no letter,
/// digit or punctuation mark is.
pub proof fn law_ascii_whitespace(c: char)
    ensures
        (c as u32) < 0x80 ==> (is_ws(c) <==> (c == ' ' || c == '\t' || c == '\n' || c == '\r'
            || c as u32 == 0x0B || c as u32 == 0x0C)),
        0x21 <= c as u32 <= 0x7E ==> !is_ws(c),
{
}

/// `str::trim_start`: the text without its leading whitespace.
pub open spec fn trim_start(s: Seq<char>) -> Seq<char>
    decreases s.len(),
{
    if s.len() > 0 && is_ws(s[0]) {
        trim_start(s.drop_first())
    } else {
        s
    }
}

/// `str::trim_end`: the text without its trailing whitespace.
pub open spec fn trim_end(s: Seq<char>) -> Seq<char>
    decreases s.len(),
{
    if s.len() > 0 && is_ws(s.last()) {
        trim_end(s.drop_last())
    } else {
        s
    }
}

/// `str::trim`: the text without leading and trailing whitespace.
pub open spec fn trim(s: Seq<char>) -> Seq<char> {
    trim_end(trim_start(s))
}

/// `trim_start` drops a run of whitespace from the front and stops at the
/// first other char.
proof fn lemma_trim_start_shape(s: Seq<char>)
    ensures
        trim_start(s).len() <= s.len(),
        trim_start(s) == s.skip(s.len() - trim_start(s).len()),
        forall|i: int| 0 <= i < s.len() - trim_start(s).len() ==> is_ws(#[trigger] s[i]),
        trim_start(s).len() > 0 ==> !is_ws(trim_start(s)[0]),
    decreases s.len(),
{
    if s.len() > 0 && is_ws(s[0]) {
        lemma_trim_start_shape(s.drop_first());
        let t = trim_start(s.drop_first());
        assert(s.drop_first().skip(s.drop_first().len() - t.len()) =~= s.skip(s.len() - t.len()));
        assert forall|i: int| 0 <= i < s.len() - t.len() implies is_ws(#[trigger] s[i]) by {
            if i > 0 {
                assert(s[i] == s.drop_first()[i - 1]);
            }
        }
    } else {
        assert(s.skip(0) =~= s);
    }
}

/// `trim_end` drops a run of whitespace from the back and stops at the
/// last other char.
proof fn lemma_trim_end_shape(s: Seq<char>)
    ensures
        trim_end(s).len() <= s.len(),
        trim_end(s) == s.take(trim_end(s).len() as int),
        forall|i: int| trim_end(s).len() <= i < s.len() ==> is_ws(#[trigger] s[i]),
        trim_end(s).len() > 0 ==> !is_ws(trim_end(s).last()),
    decreases s.len(),
{
    if s.len() > 0 && is_ws(s.last()) {
        lemma_trim_end_shape(s.drop_last());
        let t = trim_end(s.drop_last());
        assert(s.drop_last().take(t.len() as int) =~= s.take(t.len() as int));
        assert forall|i: int| t.len() <= i < s.len() implies is_ws(#[trigger] s[i]) by {
            if i < s.len() - 1 {
                assert(s[i] == s.drop_last()[i]);
            }
        }
    } else {
        assert(s.take(s.len() as int) =~= s);
    }
}

/// Trimming keeps a contiguous part of the text and drops only whitespace
/// around it: the kept part neither starts nor ends with whitespace, and
/// everything before and after it is whitespace.
pub proof fn law_trim_removes_only_outer_whitespace(s: Seq<char>)
    ensures
        exists|a: int, b: int|
            {
                &&& 0 <= a <= b <= s.len()
                &&& trim(s) == s.subrange(a, b)
                &&& forall|i: int| 0 <= i < a ==> is_ws(#[trigger] s[i])
                &&& forall|i: int| b <= i < s.len() ==> is_ws(#[trigger] s[i])
                &&& a < b ==> !is_ws(s[a]) && !is_ws(s[b - 1])
            },
{
    lemma_trim_start_shape(s);
    let t = trim_start(s);
    let a = s.len() - t.len();
    lemma_trim_end_shape(t);
    let u = trim_end(t);
    let b = a + u.len();
    assert(u =~= s.subrange(a, b));
    assert forall|i: int| b <= i < s.len() implies is_ws(#[trigger] s[i]) by {
        assert(s[i] == t[i - a]);
    }
    if a < b {
        assert(t[0] == s[a]);
        assert(u[0] == t[0]);
        assert(u.last() == s[b - 1]);
    }
}

/// A text that starts and ends with a visible ASCII char (a letter, a
/// digit or a punctuation mark) is left whole by trimming.
pub proof fn law_trim_keeps_visible_ends(s: Seq<char>)
    requires
        s.len() > 0,
        0x21 <= s[0] as u32 <= 0x7E,
        0x21 <= s.last() as u32 <= 0x7E,
    ensures
        trim(s) == s,
{
    law_ascii_whitespace(s[0]);
    law_ascii_whitespace(s.last());
    assert(trim_start(s) == s);
}

/// The chars of `v` from `lo` to `hi`.
pub fn copy_range(v: &Vec<char>, lo: usize, hi: usize) -> (r: Vec<char>)
    requires
        lo <= hi <= v.len(),
    ensures
        r@ == v@.subrange(lo as int, hi as int),
{
    let mut r: Vec<char> = Vec::new();
    let mut i = lo;
    while i < hi
        invariant
            lo <= i <= hi <= v.len(),
            r@ == v@.subrange(lo as int, i as int),
        decreases hi - i,
    {
        r.push(v[i]);
        i += 1;
        assert(r@ =~= v@.subrange(lo as int, i as int));
    }
    r
}

/// Where the text of `v` from `lo` to `hi` starts once leading whitespace is skipped.
fn skip_ws_from(v: &Vec<char>, lo: usize, hi: usize) -> (i: usize)
    requires
        lo <= hi <= v.len(),
    ensures
        lo <= i <= hi,
        trim_start(v@.subrange(lo as int, hi as int)) == v@.subrange(i as int, hi as int),
{
    let mut i = lo;
    while i < hi && is_whitespace(v[i])
        invariant
            lo <= i <= hi <= v.len(),
            trim_start(v@.subrange(lo as int, hi as int)) == trim_start(
                v@.subrange(i as int, hi as int),
            ),
        decreases hi - i,
    {
        assert(v@.subrange(i as int, hi as int).drop_first() =~= v@.subrange(
            i + 1,
            hi as int,
        ));
        i += 1;
    }
    i
}

/// Where the text of `v` from `lo` to `hi` ends once trailing whitespace is dropped.
fn drop_ws_before(v: &Vec<char>, lo: usize, hi: usize) -> (j: usize)
    requires
        lo <= hi <= v.len(),
    ensures
        lo <= j <= hi,
        trim_end(v@.subrange(lo as int, hi as int)) == v@.subrange(lo as int, j as int),
{
    let mut j = hi;
    while j > lo && is_whitespace(v[j - 1])
        invariant
            lo <= j <= hi <= v.len(),
            trim_end(v@.subrange(lo as int, hi as int)) == trim_end(
                v@.subrange(lo as int, j as int),
            ),
        decreases j - lo,
    {
        assert(v@.subrange(lo as int, j as int).drop_last() =~= v@.subrange(
            lo as int,
            j - 1,
        ));
        j -= 1;
    }
    j
}

/// The text of `v` from `lo` to `hi`, trimmed at both ends.
pub fn trim_range(v: &Vec<char>, lo: usize, hi: usize) -> (r: Vec<char>)
    requires
        lo <= hi <= v.len(),
    ensures
        r@ == trim(v@.subrange(lo as int, hi as int)),
{
    let a = skip_ws_from(v, lo, hi);
    let b = drop_ws_before(v, a, hi);
    copy_range(v, a, b)
}

/// `str::trim` on a char vector.
pub fn trim_chars(v: &Vec<char>) -> (r: Vec<char>)
    ensures
        r@ == trim(v@),
{
    assert(v@.subrange(0, v.len() as int) =~= v@);
    trim_range(v, 0, v.len())
}

/// `str::trim_start` on a char vector.
pub fn trim_start_chars(v: &Vec<char>) -> (r: Vec<char>)
    ensures
        r@ == trim_start(v@),
{
    assert(v@.subrange(0, v.len() as int) =~= v@);
    let a = skip_ws_from(v, 0, v.len());
    copy_range(v, a, v.len())
}


/// The index of the first `c` in `s` (`str::find` with a char pattern,
/// counted in chars).
pub open spec fn find_char(s: Seq<char>, c: char) -> Option<int>
    decreases s.len(),
{
    if s.len() == 0 {
        None
    } else if s[0] == c {
        Some(0)
    } else {
        match find_char(s.drop_first(), c) {
            Some(i) => Some(i + 1),
            None => None,
        }
    }
}

/// `i` is the position of the first `c` in `s`.
pub open spec fn first_at(s: Seq<char>, c: char, i: int) -> bool {
    &&& 0 <= i < s.len()
    &&& s[i] == c
    &&& forall|j: int| 0 <= j < i ==> s[j] != c
}

/// `find_char` gives the first occurrence, and `None` only when there is none.
pub proof fn lemma_find_char(s: Seq<char>, c: char)
    ensures
        find_char(s, c) matches Some(i) ==> first_at(s, c, i),
        find_char(s, c) is None ==> forall|j: int| 0 <= j < s.len() ==> s[j] != c,
    decreases s.len(),
{
    if s.len() > 0 && s[0] != c {
        lemma_find_char(s.drop_first(), c);
        assert forall|j: int| 1 <= j < s.len() implies s[j] == s.drop_first()[j - 1] by {}
    }
}

/// The first `c` in `v` between `lo` and `hi`, as an index into `v`.
pub fn find_char_in(v: &Vec<char>, c: char, lo: usize, hi: usize) -> (r: Option<usize>)
    requires
        lo <= hi <= v.len(),
    ensures
        r matches Some(k) ==> lo <= k < hi && find_char(v@.subrange(lo as int, hi as int), c)
            == Some(k - lo),
        r is None ==> find_char(v@.subrange(lo as int, hi as int), c) is None,
{
    let ghost sub = v@.subrange(lo as int, hi as int);
    let mut k = lo;
    while k < hi
        invariant
            lo <= k <= hi <= v.len(),
            sub == v@.subrange(lo as int, hi as int),
            forall|j: int| lo <= j < k ==> v@[j] != c,
        decreases hi - k,
    {
        if v[k] == c {
            proof {
                lemma_find_char(sub, c);
                assert(first_at(sub, c, k - lo));
                if let Some(i) = find_char(sub, c) {
                    assert(i == k - lo) by {
                        if i < k - lo {
                            assert(sub[i] == v@[lo + i]);
                        }
                        if i > k - lo {
                            assert(sub[k - lo] == c);
                        }
                    }
                }
            }
            return Some(k);
        }
        k += 1;
    }
    proof {
        lemma_find_char(sub, c);
        if let Some(i) = find_char(sub, c) {
            assert(sub[i] == v@[lo + i]);
        }
    }
    None
}

/// `str::split` with a char separator: the pieces between separators.
pub open spec fn split_char(s: Seq<char>, c: char) -> Seq<Seq<char>>
    decreases s.len(),
{
    if let Some(i) = find_char(s, c) {
        proof {
            lemma_find_char(s, c);
        }
        seq![s.take(i)] + split_char(s.skip(i + 1), c)
    } else {
        seq![s]
    }
}

/// `str::splitn` with a char separator: at most `n` pieces, the last one
/// holding the rest of the text.
pub open spec fn splitn_char(s: Seq<char>, c: char, n: nat) -> Seq<Seq<char>>
    decreases n,
{
    if n == 0 {
        seq![]
    } else if n == 1 {
        seq![s]
    } else if let Some(i) = find_char(s, c) {
        seq![s.take(i)] + splitn_char(s.skip(i + 1), c, (n - 1) as nat)
    } else {
        seq![s]
    }
}

/// The views of a sequence of char vectors.
pub open spec fn views(v: Seq<Vec<char>>) -> Seq<Seq<char>> {
    v.map_values(|x: Vec<char>| x@)
}

/// The pieces of the text of `v` from `lo` to `hi`, split at each `c`.
pub fn split_range(v: &Vec<char>, c: char, lo: usize, hi: usize) -> (r: Vec<Vec<char>>)
    requires
        lo <= hi <= v.len(),
    ensures
        views(r@) == split_char(v@.subrange(lo as int, hi as int), c),
{
    let mut r: Vec<Vec<char>> = Vec::new();
    let mut pos = lo;
    loop
        invariant
            lo <= pos <= hi <= v.len(),
            views(r@) + split_char(v@.subrange(pos as int, hi as int), c) == split_char(
                v@.subrange(lo as int, hi as int),
                c,
            ),
        decreases hi - pos,
    {
        let ghost sub = v@.subrange(pos as int, hi as int);
        let ghost before = views(r@);
        match find_char_in(v, c, pos, hi) {
            Some(k) => {
                let piece = copy_range(v, pos, k);
                r.push(piece);
                proof {
                    assert(sub.take(k - pos) =~= v@.subrange(pos as int, k as int));
                    assert(sub.skip(k - pos + 1) =~= v@.subrange(k + 1, hi as int));
                    assert(views(r@) =~= before.push(piece@));
                    assert(before + split_char(sub, c) =~= views(r@) + split_char(
                        v@.subrange(k + 1, hi as int),
                        c,
                    ));
                }
                pos = k + 1;
            },
            None => {
                let piece = copy_range(v, pos, hi);
                r.push(piece);
                proof {
                    assert(views(r@) =~= before.push(piece@));
                    assert(before + split_char(sub, c) =~= views(r@));
                }
                return r;
            },
        }
    }
}

/// The pieces of the text of `v` from `lo` to `hi`, split at each `c` into
/// at most `n` pieces.
pub fn splitn_range(v: &Vec<char>, c: char, n: usize, lo: usize, hi: usize) -> (r: Vec<
    Vec<char>,
>)
    requires
        lo <= hi <= v.len(),
    ensures
        views(r@) == splitn_char(v@.subrange(lo as int, hi as int), c, n as nat),
{
    let mut r: Vec<Vec<char>> = Vec::new();
    let mut pos = lo;
    let mut left = n;
    loop
        invariant
            lo <= pos <= hi <= v.len(),
            views(r@) + splitn_char(v@.subrange(pos as int, hi as int), c, left as nat)
                == splitn_char(v@.subrange(lo as int, hi as int), c, n as nat),
        decreases left,
    {
        let ghost sub = v@.subrange(pos as int, hi as int);
        let ghost before = views(r@);
        if left == 0 {
            assert(before + splitn_char(sub, c, 0) =~= before);
            return r;
        }
        if left == 1 {
            let piece = copy_range(v, pos, hi);
            r.push(piece);
            proof {
                assert(views(r@) =~= before.push(piece@));
                assert(before + splitn_char(sub, c, 1) =~= views(r@));
            }
            return r;
        }
        match find_char_in(v, c, pos, hi) {
            Some(k) => {
                let piece = copy_range(v, pos, k);
                r.push(piece);
                proof {
                    assert(sub.take(k - pos) =~= v@.subrange(pos as int, k as int));
                    assert(sub.skip(k - pos + 1) =~= v@.subrange(k + 1, hi as int));
                    assert(views(r@) =~= before.push(piece@));
                    assert(before + splitn_char(sub, c, left as nat) =~= views(r@)
                        + splitn_char(v@.subrange(k + 1, hi as int), c, (left - 1) as nat));
                }
                pos = k + 1;
                left = left - 1;
            },
            None => {
                let piece = copy_range(v, pos, hi);
                r.push(piece);
                proof {
                    assert(views(r@) =~= before.push(piece@));
                    assert(before + splitn_char(sub, c, left as nat) =~= views(r@));
                }
                return r;
            },
        }
    }
}

/// `str::strip_prefix`: the rest of `s` after `p`, when `s` starts with `p`.
pub open spec fn strip_prefix(s: Seq<char>, p: Seq<char>) -> Option<Seq<char>> {
    if p.len() <= s.len() && s.take(p.len() as int) == p {
        Some(s.skip(p.len() as int))
    } else {
        None
    }
}

/// Whether `v` starts with `p`.
pub fn starts_with(v: &Vec<char>, p: &Vec<char>) -> (r: bool)
    ensures
        r == (p@.len() <= v@.len() && v@.take(p@.len() as int) == p@),
{
    if p.len() > v.len() {
        return false;
    }
    let mut i: usize = 0;
    while i < p.len()
        invariant
            i <= p.len() <= v.len(),
            forall|j: int| 0 <= j < i ==> v@[j] == p@[j],
        decreases p.len() - i,
    {
        if v[i] != p[i] {
            assert(v@.take(p@.len() as int)[i as int] != p@[i as int]);
            return false;
        }
        i += 1;
    }
    assert(v@.take(p@.len() as int) =~= p@);
    true
}

/// `str::strip_prefix` on char vectors.
pub fn strip_prefix_chars(v: &Vec<char>, p: &Vec<char>) -> (r: Option<Vec<char>>)
    ensures
        r matches Some(x) ==> strip_prefix(v@, p@) == Some(x@),
        r is None ==> strip_prefix(v@, p@) is None,
{
    if starts_with(v, p) {
        Some(copy_range(v, p.len(), v.len()))
    } else {
        None
    }
}

/// Whether two char vectors hold the same text.
pub fn eq_chars(a: &Vec<char>, b: &Vec<char>) -> (r: bool)
    ensures
        r == (a@ == b@),
{
    if a.len() != b.len() {
        return false;
    }
    let r = starts_with(a, b);
    proof {
        if r {
            assert(a@.take(b@.len() as int) =~= a@);
        } else {
            assert(a@.take(b@.len() as int) =~= a@);
        }
    }
    r
}

/// The code of a char after ASCII lower-casing.
pub open spec fn ascii_lower_code(c: char) -> u32 {
    let u = c as u32;
    if 0x41 <= u <= 0x5A {
        (u + 0x20) as u32
    } else {
        u
    }
}

/// `str::eq_ignore_ascii_case`.
pub open spec fn eq_ignore_ascii_case(a: Seq<char>, b: Seq<char>) -> bool {
    &&& a.len() == b.len()
    &&& forall|i: int| 0 <= i < a.len() ==> ascii_lower_code(a[i]) == ascii_lower_code(b[i])
}

fn ascii_lower_code_of(c: char) -> (r: u32)
    ensures
        r == ascii_lower_code(c),
{
    let u = c as u32;
    if 0x41 <= u && u <= 0x5A {
        u + 0x20
    } else {
        u
    }
}

/// `str::eq_ignore_ascii_case` on char vectors.
pub fn eq_ignore_ascii_case_chars(a: &Vec<char>, b: &Vec<char>) -> (r: bool)
    ensures
        r == eq_ignore_ascii_case(a@, b@),
{
    if a.len() != b.len() {
        return false;
    }
    let mut i: usize = 0;
    while i < a.len()
        invariant
            i <= a.len() == b.len(),
            forall|j: int| 0 <= j < i ==> ascii_lower_code(a@[j]) == ascii_lower_code(b@[j]),
        decreases a.len() - i,
    {
        if ascii_lower_code_of(a[i]) != ascii_lower_code_of(b[i]) {
            return false;
        }
        i += 1;
    }
    true
}

} // verus!
