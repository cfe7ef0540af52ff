//! The decisions of loading the fonts of a subtitle: which font file serves
//! each wanted font, which fonts are missing, and the report of a load.
use vstd::prelude::*;
use crate::font_set::string_views;
use crate::text::{chars_of, string_of, trim, trim_chars};

verus! {

/// The paths that serve the wanted fonts: for each font in order, the first
/// path that the catalogue gave for it, if any.
pub open spec fn first_paths(results: Seq<Seq<Seq<char>>>) -> Seq<Seq<char>>
    decreases results.len(),
{
    if results.len() == 0 {
        Seq::empty()
    } else {
        let r = first_paths(results.drop_last());
        if results.last().len() > 0 {
            r.push(results.last()[0])
        } else {
            r
        }
    }
}

/// The wanted fonts for which the catalogue gave no path, in order.
pub open spec fn unmatched(names: Seq<Seq<char>>, results: Seq<Seq<Seq<char>>>) -> Seq<
    Seq<char>,
>
    decreases names.len(),
{
    if names.len() == 0 || results.len() == 0 {
        Seq::empty()
    } else {
        let r = unmatched(names.drop_last(), results.drop_last());
        if results.last().len() == 0 {
            r.push(names.last())
        } else {
            r
        }
    }
}

/// The views of what the catalogue answered for each font.
pub open spec fn result_views(results: Seq<Vec<String>>) -> Seq<Seq<Seq<char>>> {
    results.map_values(|r: Vec<String>| string_views(r@))
}

/// The outcome of looking the wanted fonts up in the catalogue.
pub struct FontSelection {
    /// The font files to load.
    pub valid_paths: Vec<String>,
    /// The fonts that no font file serves.
    pub missing: Vec<String>,
}

/// Picks, for each wanted font, the first path that the catalogue gave for
/// it (`results[i]` answers `font_names[i]`); the fonts with no path are
/// missing.
pub fn select_fonts(font_names: &Vec<String>, results: &Vec<Vec<String>>) -> (r: FontSelection)
    requires
        font_names.len() == results.len(),
    ensures
        string_views(r.valid_paths@) == first_paths(result_views(results@)),
        string_views(r.missing@) == unmatched(string_views(font_names@), result_views(results@)),
{
    let ghost names = string_views(font_names@);
    let ghost res = result_views(results@);
    let mut valid_paths: Vec<String> = Vec::new();
    let mut missing: Vec<String> = Vec::new();
    let mut i: usize = 0;
    while i < font_names.len()
        invariant
            i <= font_names.len() == results.len(),
            names == string_views(font_names@),
            res == result_views(results@),
            string_views(valid_paths@) == first_paths(res.take(i as int)),
            string_views(missing@) == unmatched(names.take(i as int), res.take(i as int)),
        decreases font_names.len() - i,
    {
        assert(res.take(i + 1).drop_last() =~= res.take(i as int));
        assert(names.take(i + 1).drop_last() =~= names.take(i as int));
        assert(res.take(i + 1).last() == string_views(results@[i as int]@));
        assert(names.take(i + 1).last() == font_names@[i as int]@);
        let ghost vp = string_views(valid_paths@);
        let ghost ms = string_views(missing@);
        if results[i].len() > 0 {
            let p = results[i][0].clone();
            valid_paths.push(p);
            assert(string_views(valid_paths@) =~= vp.push(p@));
        } else {
            let n = font_names[i].clone();
            missing.push(n);
            assert(string_views(missing@) =~= ms.push(n@));
        }
        i += 1;
    }
    assert(res.take(results.len() as int) =~= res);
    assert(names.take(font_names.len() as int) =~= names);
    FontSelection { valid_paths, missing }
}

/// The fonts of `missing` that the system does not offer either
/// (`available[i]` tells whether it offers `missing[i]`), in order.
pub open spec fn unavailable(missing: Seq<Seq<char>>, available: Seq<bool>) -> Seq<Seq<char>>
    decreases missing.len(),
{
    if missing.len() == 0 || available.len() == 0 {
        Seq::empty()
    } else {
        let r = unavailable(missing.drop_last(), available.drop_last());
        if available.last() {
            r
        } else {
            r.push(missing.last())
        }
    }
}

/// Keeps the missing fonts that the system does not offer.
pub fn still_missing(missing: &Vec<String>, available: &Vec<bool>) -> (r: Vec<String>)
    requires
        missing.len() == available.len(),
    ensures
        string_views(r@) == unavailable(string_views(missing@), available@),
{
    let ghost ms = string_views(missing@);
    let mut r: Vec<String> = Vec::new();
    let mut i: usize = 0;
    while i < missing.len()
        invariant
            i <= missing.len() == available.len(),
            ms == string_views(missing@),
            string_views(r@) == unavailable(ms.take(i as int), available@.take(i as int)),
        decreases missing.len() - i,
    {
        assert(ms.take(i + 1).drop_last() =~= ms.take(i as int));
        assert(available@.take(i + 1).drop_last() =~= available@.take(i as int));
        assert(ms.take(i + 1).last() == missing@[i as int]@);
        let ghost before = string_views(r@);
        if !available[i] {
            let n = missing[i].clone();
            r.push(n);
            assert(string_views(r@) =~= before.push(n@));
        }
        i += 1;
    }
    assert(ms.take(missing.len() as int) =~= ms);
    assert(available@.take(available.len() as int) =~= available@);
    r
}

/// The digit that stands for `d`.
pub open spec fn digit_char(d: nat) -> char {
    if d == 0 {
        '0'
    } else if d == 1 {
        '1'
    } else if d == 2 {
        '2'
    } else if d == 3 {
        '3'
    } else if d == 4 {
        '4'
    } else if d == 5 {
        '5'
    } else if d == 6 {
        '6'
    } else if d == 7 {
        '7'
    } else if d == 8 {
        '8'
    } else {
        '9'
    }
}

/// The decimal writing of `n`, as `{}` formats an integer.
pub open spec fn decimal(n: nat) -> Seq<char>
    decreases n,
{
    if n < 10 {
        seq![digit_char(n)]
    } else {
        decimal(n / 10).push(digit_char(n % 10))
    }
}

fn digit_of(d: usize) -> (c: char)
    requires
        d < 10,
    ensures
        c == digit_char(d as nat),
{
    if d == 0 {
        '0'
    } else if d == 1 {
        '1'
    } else if d == 2 {
        '2'
    } else if d == 3 {
        '3'
    } else if d == 4 {
        '4'
    } else if d == 5 {
        '5'
    } else if d == 6 {
        '6'
    } else if d == 7 {
        '7'
    } else if d == 8 {
        '8'
    } else {
        '9'
    }
}

/// The decimal writing of `n`.
pub fn decimal_chars(n: usize) -> (r: Vec<char>)
    ensures
        r@ == decimal(n as nat),
    decreases n,
{
    if n < 10 {
        let r = vec![digit_of(n)];
        assert(r@ =~= seq![digit_char(n as nat)]);
        r
    } else {
        let mut r = decimal_chars(n / 10);
        r.push(digit_of(n % 10));
        r
    }
}

/// The texts of `parts` with `sep` between each two, as `[String]::join`
/// gives them.
pub open spec fn join(parts: Seq<Seq<char>>, sep: Seq<char>) -> Seq<char>
    decreases parts.len(),
{
    if parts.len() == 0 {
        Seq::empty()
    } else if parts.len() == 1 {
        parts[0]
    } else {
        join(parts.drop_last(), sep) + sep + parts.last()
    }
}

/// What a load of subtitle fonts achieved.
pub struct LoadReport {
    /// How many fonts are loaded.
    pub loaded_count: usize,
    /// The fonts that neither the catalogue nor the system offers.
    pub missing_fonts: Vec<String>,
}

/// The report's message: `Loaded <count> fonts. Missing: <fonts>`, the
/// missing fonts joined by `, `, or `none`.
pub open spec fn report_message(loaded_count: nat, missing: Seq<Seq<char>>) -> Seq<char> {
    "Loaded "@ + decimal(loaded_count) + " fonts. Missing: "@ + if missing.len() == 0 {
        "none"@
    } else {
        join(missing, ", "@)
    }
}

impl LoadReport {
    /// The message that tells the user what was loaded and what is missing.
    pub fn message(&self) -> (r: String)
        ensures
            r@ == report_message(self.loaded_count as nat, string_views(self.missing_fonts@)),
    {
        let mut s = String::from_str("Loaded ");
        let count = string_of(&decimal_chars(self.loaded_count));
        s.append(count.as_str());
        s.append(" fonts. Missing: ");
        let ghost head = s@;
        let ghost ms = string_views(self.missing_fonts@);
        if self.missing_fonts.len() == 0 {
            s.append("none");
        } else {
            let mut i: usize = 0;
            while i < self.missing_fonts.len()
                invariant
                    i <= self.missing_fonts.len(),
                    ms == string_views(self.missing_fonts@),
                    s@ == head + join(ms.take(i as int), ", "@),
                decreases self.missing_fonts.len() - i,
            {
                assert(ms.take(i + 1).drop_last() =~= ms.take(i as int));
                assert(ms.take(i + 1).last() == self.missing_fonts@[i as int]@);
                if i > 0 {
                    s.append(", ");
                }
                s.append(self.missing_fonts[i].as_str());
                proof {
                    if i == 0 {
                        assert(join(ms.take(1), ", "@) == ms.take(1)[0]);
                        assert(join(ms.take(0), ", "@) =~= Seq::<char>::empty());
                    }
                }
                assert(s@ =~= head + join(ms.take(i + 1), ", "@));
                i += 1;
            }
            assert(ms.take(self.missing_fonts.len() as int) =~= ms);
        }
        s
    }
}

/// `trim_start_matches('"')`: the text without its leading quotes.
pub open spec fn drop_leading_quotes(s: Seq<char>) -> Seq<char>
    decreases s.len(),
{
    if s.len() > 0 && s[0] == '"' {
        drop_leading_quotes(s.drop_first())
    } else {
        s
    }
}

/// `trim_end_matches('"')`: the text without its trailing quotes.
pub open spec fn drop_trailing_quotes(s: Seq<char>) -> Seq<char>
    decreases s.len(),
{
    if s.len() > 0 && s.last() == '"' {
        drop_trailing_quotes(s.drop_last())
    } else {
        s
    }
}

/// The font root that the user typed: trimmed, then without the quotes
/// around it (`trim` then `trim_matches('"')`).
pub open spec fn cleaned_font_root(input: Seq<char>) -> Seq<char> {
    drop_trailing_quotes(drop_leading_quotes(trim(input)))
}

/// Cleans the font root that the user typed.
pub fn clean_font_root_input(input: &str) -> (r: String)
    ensures
        r@ == cleaned_font_root(input@),
{
    let t = trim_chars(&chars_of(input));
    let mut a: usize = 0;
    assert(t@.skip(0) =~= t@);
    while a < t.len() && t[a] == '"'
        invariant
            a <= t.len(),
            drop_leading_quotes(t@) == drop_leading_quotes(t@.skip(a as int)),
        decreases t.len() - a,
    {
        assert(t@.skip(a as int).drop_first() =~= t@.skip(a + 1));
        a += 1;
    }
    let mut b: usize = t.len();
    let ghost mid = t@.skip(a as int);
    assert(mid =~= t@.subrange(a as int, t@.len() as int));
    while b > a && t[b - 1] == '"'
        invariant
            a <= b <= t.len(),
            mid == t@.subrange(a as int, t@.len() as int),
            drop_trailing_quotes(mid) == drop_trailing_quotes(t@.subrange(a as int, b as int)),
        decreases b - a,
    {
        assert(t@.subrange(a as int, b as int).drop_last() =~= t@.subrange(a as int, b - 1));
        b -= 1;
    }
    string_of(&crate::text::copy_range(&t, a, b))
}

} // verus!
