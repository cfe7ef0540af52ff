//! Extraction of the font names that an ASS (Advanced SubStation Alpha)
//! subtitle uses: the `Fontname` column of the styles, and the `\fn` override
//! tags inside the text of dialogue events.
use vstd::prelude::*;
use crate::font_set::{FontSet, lists_in_order, string_views};
use vstd::utf8::{decode_utf8, valid_utf8};
use crate::text::{
    chars_of, copy_range, eq_chars, eq_ignore_ascii_case, eq_ignore_ascii_case_chars, find_char,
    find_char_in, first_at, is_ws, lemma_find_char, trim_end, split_char, split_range, splitn_char, splitn_range,
    strip_prefix, strip_prefix_chars, trim, trim_chars, trim_start, trim_start_chars, views,
    trim_range, law_trim_keeps_visible_ends,
};

verus! {

/// A section of an ASS file.
#[derive(Clone, Copy, Debug, PartialEq, Eq)]
pub enum Section {
    Styles,
    Events,
    Other,
}

/// The section that a header line opens.
pub open spec fn section_of_header(h: Seq<char>) -> Section {
    if h == "[V4+ Styles]"@ || h == "[V4 Styles]"@ || h == "[V4++ Styles]"@ {
        Section::Styles
    } else if h == "[Events]"@ {
        Section::Events
    } else {
        Section::Other
    }
}

impl Section {
    /// The section that the header line `h` opens.
    pub fn from_header(h: &Vec<char>) -> (r: Section)
        ensures
            r == section_of_header(h@),
    {
        if eq_chars(h, &chars_of("[V4+ Styles]")) || eq_chars(h, &chars_of("[V4 Styles]"))
            || eq_chars(h, &chars_of("[V4++ Styles]")) {
            Section::Styles
        } else if eq_chars(h, &chars_of("[Events]")) {
            Section::Events
        } else {
            Section::Other
        }
    }
}

/// Where the wanted column stands in the comma-separated lines of a section.
#[derive(Clone, Copy, Debug, PartialEq, Eq)]
pub struct ColFormat {
    /// The index of the wanted column once a line is split at commas.
    pub target_index: usize,
    /// The greatest number of pieces a line is split into (the last piece
    /// keeps the rest of the line).
    pub columns_count: usize,
}

/// The column format that styles have before any `Format:` line:
/// `Name, Fontname, ...`.
pub open spec fn style_default_format() -> ColFormat {
    ColFormat { target_index: 1, columns_count: usize::MAX }
}

/// The column format that events have before any `Format:` line:
/// `Layer, Start, End, Style, Name, MarginL, MarginR, MarginV, Effect, Text`.
pub open spec fn event_default_format() -> ColFormat {
    ColFormat { target_index: 9, columns_count: 10 }
}

/// The first index at or after `i` of a column that equals `needle`, ASCII
/// case ignored.
pub open spec fn first_match_from(cols: Seq<Seq<char>>, needle: Seq<char>, i: int) -> Option<
    int,
>
    decreases cols.len() - i,
{
    if i < 0 || i >= cols.len() {
        None
    } else if eq_ignore_ascii_case(cols[i], needle) {
        Some(i)
    } else {
        first_match_from(cols, needle, i + 1)
    }
}

/// The trimmed columns of a `Format:` line.
pub open spec fn format_columns(format_str: Seq<char>) -> Seq<Seq<char>> {
    split_char(format_str, ',').map_values(|c: Seq<char>| trim(c))
}

/// The format that the rest of a `Format:` line sets: as many columns as it
/// names, and the wanted one where `needle` stands (ASCII case ignored), or
/// the last one when no column is called so.
pub open spec fn format_from_line(format_str: Seq<char>, needle: Seq<char>) -> ColFormat {
    let cols = format_columns(format_str);
    ColFormat {
        columns_count: cols.len() as usize,
        target_index: match first_match_from(cols, needle, 0) {
            Some(i) => i as usize,
            None => if cols.len() > 0 {
                (cols.len() - 1) as usize
            } else {
                0
            },
        },
    }
}

/// A format whose wanted column is one of its columns, of which it has at
/// least one.
pub open spec fn well_formed_format(f: ColFormat) -> bool {
    1 <= f.columns_count && f.target_index < f.columns_count
}

/// A text split at a char has at least one piece, and at most one more than
/// the text has chars.
proof fn lemma_split_len(s: Seq<char>, c: char)
    ensures
        1 <= split_char(s, c).len() <= s.len() + 1,
    decreases s.len(),
{
    lemma_find_char(s, c);
    if let Some(i) = find_char(s, c) {
        lemma_split_len(s.skip(i + 1), c);
    }
}

/// A match found from `k` on stands at or after `k`, within the columns.
proof fn lemma_first_match_in(cols: Seq<Seq<char>>, needle: Seq<char>, k: int)
    ensures
        first_match_from(cols, needle, k) matches Some(i) ==> k <= i < cols.len(),
    decreases cols.len() - k,
{
    if 0 <= k < cols.len() && !eq_ignore_ascii_case(cols[k], needle) {
        lemma_first_match_in(cols, needle, k + 1);
    }
}

/// Every column format is well formed: the two defaults, and whatever a
/// `Format:` line sets (of a length that fits in memory), so that a format
/// stays well formed through any series of updates.
pub proof fn law_formats_are_well_formed(format_str: Seq<char>, needle: Seq<char>)
    requires
        format_str.len() < usize::MAX,
    ensures
        well_formed_format(style_default_format()),
        well_formed_format(event_default_format()),
        well_formed_format(format_from_line(format_str, needle)),
{
    let cols = format_columns(format_str);
    lemma_split_len(format_str, ',');
    lemma_first_match_in(cols, needle, 0);
}

impl ColFormat {
    /// The format of the styles before any `Format:` line.
    pub fn style_default() -> (r: ColFormat)
        ensures
            r == style_default_format(),
    {
        ColFormat { target_index: 1, columns_count: usize::MAX }
    }

    /// The format of the events before any `Format:` line.
    pub fn event_default() -> (r: ColFormat)
        ensures
            r == event_default_format(),
    {
        ColFormat { target_index: 9, columns_count: 10 }
    }

    /// Takes the format from the rest of a `Format: col0, col1, ...` line;
    /// `needle` names the wanted column.
    pub fn update_from_format_line(&mut self, format_str: &Vec<char>, needle: &Vec<char>)
        ensures
            *final(self) == format_from_line(format_str@, needle@),
            well_formed_format(*final(self)),
    {
        proof {
            lemma_split_len(format_str@, ',');
            lemma_first_match_in(format_columns(format_str@), needle@, 0);
        }
        let pieces = split_range(format_str, ',', 0, format_str.len());
        let ghost whole = format_str@.subrange(0, format_str@.len() as int);
        assert(whole =~= format_str@);
        let mut cols: Vec<Vec<char>> = Vec::new();
        let mut i: usize = 0;
        while i < pieces.len()
            invariant
                i <= pieces.len(),
                views(pieces@) == split_char(format_str@, ','),
                views(cols@) == views(pieces@).take(i as int).map_values(|c: Seq<char>| trim(c)),
            decreases pieces.len() - i,
        {
            let c = trim_chars(&pieces[i]);
            let ghost before = views(cols@);
            cols.push(c);
            assert(views(cols@) =~= before.push(c@));
            assert(views(pieces@).take(i + 1) =~= views(pieces@).take(i as int).push(
                pieces@[i as int]@,
            ));
            i += 1;
        }
        assert(views(pieces@).take(pieces.len() as int) =~= views(pieces@));
        let ghost spec_cols = format_columns(format_str@);
        assert(views(cols@) =~= spec_cols);
        let mut k: usize = 0;
        while k < cols.len() && !eq_ignore_ascii_case_chars(&cols[k], needle)
            invariant
                k <= cols.len(),
                views(cols@) == spec_cols,
                first_match_from(spec_cols, needle@, 0) == first_match_from(
                    spec_cols,
                    needle@,
                    k as int,
                ),
            decreases cols.len() - k,
        {
            k += 1;
        }
        self.columns_count = cols.len();
        if k < cols.len() {
            self.target_index = k;
        } else {
            self.target_index = if cols.len() > 0 {
                cols.len() - 1
            } else {
                0
            };
        }
    }
}

/// A font name as it is kept: trimmed, and without the `@` that marks
/// vertical typesetting.
pub open spec fn clean_font_name(raw: Seq<char>) -> Seq<char> {
    let t = trim(raw);
    match strip_prefix(t, seq!['@']) {
        Some(r) => r,
        None => t,
    }
}

/// The fonts once the raw name `raw` is added: names that are empty once
/// cleaned are not added.
pub open spec fn with_font(fonts: Set<Seq<char>>, raw: Seq<char>) -> Set<Seq<char>> {
    let n = clean_font_name(raw);
    if n.len() > 0 {
        fonts.insert(n)
    } else {
        fonts
    }
}

/// Whether every char of `s` is whitespace.
pub open spec fn all_ws(s: Seq<char>) -> bool {
    forall|i: int| 0 <= i < s.len() ==> is_ws(#[trigger] s[i])
}

/// `trim_end` keeps a prefix of the text, which ends in no whitespace.
proof fn lemma_trim_end_prefix(s: Seq<char>)
    ensures
        trim_end(s).len() <= s.len(),
        trim_end(s) == s.take(trim_end(s).len() as int),
        trim_end(s).len() > 0 ==> !is_ws(trim_end(s).last()),
    decreases s.len(),
{
    if s.len() > 0 && is_ws(s.last()) {
        lemma_trim_end_prefix(s.drop_last());
        let t = trim_end(s.drop_last());
        assert(s.drop_last().take(t.len() as int) =~= s.take(t.len() as int));
    } else {
        assert(s.take(s.len() as int) =~= s);
    }
}

/// `trim_start` leaves a text that starts with no whitespace.
proof fn lemma_trim_start_first(s: Seq<char>)
    ensures
        trim_start(s).len() > 0 ==> !is_ws(trim_start(s)[0]),
    decreases s.len(),
{
    if s.len() > 0 && is_ws(s[0]) {
        lemma_trim_start_first(s.drop_first());
    }
}

/// A trimmed text has no whitespace at either end.
proof fn lemma_trimmed_ends(x: Seq<char>)
    requires
        trim(x) == x,
    ensures
        x.len() > 0 ==> !is_ws(x[0]) && !is_ws(x.last()),
{
    let y = trim_start(x);
    lemma_trim_start_first(x);
    lemma_trim_end_prefix(y);
    if x.len() > 0 {
        assert(trim_end(y)[0] == y.take(trim_end(y).len() as int)[0]);
    }
}

/// Whitespace before a text that starts with none is trimmed away.
proof fn lemma_trim_start_pad(pre: Seq<char>, rest: Seq<char>)
    requires
        all_ws(pre),
        rest.len() > 0,
        !is_ws(rest[0]),
    ensures
        trim_start(pre + rest) == rest,
    decreases pre.len(),
{
    if pre.len() == 0 {
        assert(pre + rest =~= rest);
    } else {
        assert((pre + rest)[0] == pre[0]);
        assert((pre + rest).drop_first() =~= pre.drop_first() + rest);
        assert forall|i: int| 0 <= i < pre.drop_first().len() implies is_ws(
            #[trigger] pre.drop_first()[i],
        ) by {
            assert(pre.drop_first()[i] == pre[i + 1]);
        }
        lemma_trim_start_pad(pre.drop_first(), rest);
    }
}

/// Whitespace after a text that ends in none is trimmed away.
proof fn lemma_trim_end_pad(rest: Seq<char>, post: Seq<char>)
    requires
        all_ws(post),
        rest.len() > 0,
        !is_ws(rest.last()),
    ensures
        trim_end(rest + post) == rest,
    decreases post.len(),
{
    if post.len() == 0 {
        assert(rest + post =~= rest);
    } else {
        assert((rest + post).last() == post.last());
        assert((rest + post).drop_last() =~= rest + post.drop_last());
        assert forall|i: int| 0 <= i < post.drop_last().len() implies is_ws(
            #[trigger] post.drop_last()[i],
        ) by {
            assert(post.drop_last()[i] == post[i]);
        }
        lemma_trim_end_pad(rest, post.drop_last());
    }
}

/// A name marked for vertical typesetting (`@`), with any whitespace around
/// it, is the same font as the plain name: adding either gives the same
/// fonts.
pub proof fn law_vertical_name_is_the_plain_name(
    fonts: Set<Seq<char>>,
    name: Seq<char>,
    pre: Seq<char>,
    post: Seq<char>,
)
    requires
        trim(name) == name,
        name.len() == 0 || name[0] != '@',
        all_ws(pre),
        all_ws(post),
    ensures
        with_font(fonts, pre + seq!['@'] + name + post) == with_font(fonts, name),
{
    let r = seq!['@'] + name;
    lemma_trimmed_ends(name);
    assert(!is_ws('@'));
    assert(r[0] == '@');
    assert(pre + seq!['@'] + name + post =~= pre + (r + post));
    assert((r + post)[0] == '@');
    lemma_trim_start_pad(pre, r + post);
    if name.len() > 0 {
        assert(r.last() == name.last());
    }
    lemma_trim_end_pad(r, post);
    assert(trim(pre + seq!['@'] + name + post) == r);
    assert(r.take(1) =~= seq!['@']);
    assert(r.skip(1) =~= name);
    assert(clean_font_name(pre + seq!['@'] + name + post) == name);
    if name.len() > 0 {
        assert(name.take(1)[0] != '@');
        assert(name.take(1) != seq!['@']);
    }
    assert(strip_prefix(name, seq!['@']) is None);
    assert(clean_font_name(name) == name);
}

/// Adds the font named by `raw`, cleaned, unless it is empty.
pub fn add_font(fonts: &mut FontSet, raw: &Vec<char>)
    ensures
        final(fonts)@ == with_font(old(fonts)@, raw@),
{
    let t = trim_chars(raw);
    let at: Vec<char> = vec!['@'];
    assert(at@ =~= seq!['@']);
    let name = match strip_prefix_chars(&t, &at) {
        Some(r) => r,
        None => t,
    };
    if name.len() > 0 {
        fonts.insert(name);
    }
}

/// The fonts once the `\`-separated tags of an override block are read: each
/// tag that starts with `fn` names a font.
pub open spec fn with_tag_fonts(fonts: Set<Seq<char>>, tags: Seq<Seq<char>>) -> Set<Seq<char>>
    decreases tags.len(),
{
    if tags.len() == 0 {
        fonts
    } else {
        let f = with_tag_fonts(fonts, tags.drop_last());
        match strip_prefix(tags.last(), "fn"@) {
            Some(name) => with_font(f, name),
            None => f,
        }
    }
}

/// The fonts once the override blocks `{...}` of a dialogue text are read,
/// from left to right; a `{` without a later `}` ends the reading.
pub open spec fn with_inline_fonts(fonts: Set<Seq<char>>, text: Seq<char>) -> Set<Seq<char>>
    decreases text.len(),
{
    if let Some(o) = find_char(text, '{') {
        let rest = text.skip(o + 1);
        if let Some(cl) = find_char(rest, '}') {
            proof {
                lemma_find_char(text, '{');
                lemma_find_char(rest, '}');
            }
            with_inline_fonts(
                with_tag_fonts(fonts, split_char(rest.take(cl), '\\')),
                rest.skip(cl + 1),
            )
        } else {
            fonts
        }
    } else {
        fonts
    }
}

/// Adds the fonts of the tags in `pieces`.
fn add_tag_fonts(fonts: &mut FontSet, pieces: &Vec<Vec<char>>)
    ensures
        final(fonts)@ == with_tag_fonts(old(fonts)@, views(pieces@)),
{
    let fn_tag = chars_of("fn");
    let mut i: usize = 0;
    while i < pieces.len()
        invariant
            i <= pieces.len(),
            fn_tag@ == "fn"@,
            fonts@ == with_tag_fonts(old(fonts)@, views(pieces@).take(i as int)),
        decreases pieces.len() - i,
    {
        assert(views(pieces@).take(i + 1).drop_last() =~= views(pieces@).take(i as int));
        if let Some(name) = strip_prefix_chars(&pieces[i], &fn_tag) {
            add_font(fonts, &name);
        }
        i += 1;
    }
    assert(views(pieces@).take(pieces.len() as int) =~= views(pieces@));
}

/// Adds the fonts named by `\fn` tags in the override blocks of `text`.
pub fn scan_inline_tags_chars(text: &Vec<char>, fonts: &mut FontSet)
    ensures
        final(fonts)@ == with_inline_fonts(old(fonts)@, text@),
{
    let ghost goal = with_inline_fonts(old(fonts)@, text@);
    let mut pos: usize = 0;
    let mut done = false;
    assert(text@.subrange(0, text@.len() as int) =~= text@);
    while !done
        invariant
            pos <= text.len(),
            done ==> goal == fonts@,
            !done ==> goal == with_inline_fonts(
                fonts@,
                text@.subrange(pos as int, text@.len() as int),
            ),
        decreases text.len() - pos, (if done { 0int } else { 1int }),
    {
        let ghost rest0 = text@.subrange(pos as int, text@.len() as int);
        match find_char_in(text, '{', pos, text.len()) {
            None => {
                done = true;
            },
            Some(open) => {
                let ghost rest = rest0.skip(open - pos + 1);
                assert(rest =~= text@.subrange(open + 1, text@.len() as int));
                match find_char_in(text, '}', open + 1, text.len()) {
                    None => {
                        done = true;
                    },
                    Some(close) => {
                        let pieces = split_range(text, '\\', open + 1, close);
                        assert(rest.take(close - open - 1) =~= text@.subrange(
                            open + 1,
                            close as int,
                        ));
                        assert(rest.skip(close - open) =~= text@.subrange(
                            close + 1,
                            text@.len() as int,
                        ));
                        add_tag_fonts(fonts, &pieces);
                        pos = close + 1;
                    },
                }
            },
        }
    }
}

/// Adds the fonts named by `\fn` tags in the override blocks of `text`.
pub fn scan_inline_tags(text: &str, fonts: &mut FontSet)
    ensures
        final(fonts)@ == with_inline_fonts(old(fonts)@, text@),
{
    let t = chars_of(text);
    scan_inline_tags_chars(&t, fonts);
}


/// What a line of the styles section does to the format and to the fonts:
/// a `Format:` line sets the format; a `Style:` line adds the font in the
/// wanted column, if the line has that many columns.
pub open spec fn style_line(line: Seq<char>, fmt: ColFormat, fonts: Set<Seq<char>>) -> (
    ColFormat,
    Set<Seq<char>>,
) {
    if let Some(rest) = strip_prefix(line, "Format:"@) {
        (format_from_line(rest, "fontname"@), fonts)
    } else if let Some(rest) = strip_prefix(line, "Style:"@) {
        let cols = split_char(rest, ',');
        if (fmt.target_index as int) < cols.len() {
            (fmt, with_font(fonts, cols[fmt.target_index as int]))
        } else {
            (fmt, fonts)
        }
    } else {
        (fmt, fonts)
    }
}

/// The text after `Dialogue:`, without its leading whitespace, when `line`
/// is a dialogue event (comments are not).
pub open spec fn dialogue_content(line: Seq<char>) -> Option<Seq<char>> {
    if let Some(i) = find_char(line, ':') {
        if line.take(i) == "Dialogue"@ {
            Some(trim_start(line.skip(i + 1)))
        } else {
            None
        }
    } else {
        None
    }
}

/// What a line of the events section does to the format and to the fonts:
/// a `Format:` line sets the format; a dialogue line adds the fonts of the
/// override tags in its text column.
pub open spec fn event_line(line: Seq<char>, fmt: ColFormat, fonts: Set<Seq<char>>) -> (
    ColFormat,
    Set<Seq<char>>,
) {
    if let Some(rest) = strip_prefix(line, "Format:"@) {
        (format_from_line(rest, "text"@), fonts)
    } else if let Some(content) = dialogue_content(line) {
        let cols = splitn_char(content, ',', fmt.columns_count as nat);
        if (fmt.target_index as int) < cols.len() {
            (fmt, with_inline_fonts(fonts, cols[fmt.target_index as int]))
        } else {
            (fmt, fonts)
        }
    } else {
        (fmt, fonts)
    }
}

/// Reads a line of the styles section.
pub fn handle_style(line: &Vec<char>, fmt: &mut ColFormat, fonts: &mut FontSet)
    ensures
        (*final(fmt), final(fonts)@) == style_line(line@, *old(fmt), old(fonts)@),
{
    let format_tag = chars_of("Format:");
    let style_tag = chars_of("Style:");
    if let Some(rest) = strip_prefix_chars(line, &format_tag) {
        fmt.update_from_format_line(&rest, &chars_of("fontname"));
    } else if let Some(rest) = strip_prefix_chars(line, &style_tag) {
        let cols = split_range(&rest, ',', 0, rest.len());
        assert(rest@.subrange(0, rest@.len() as int) =~= rest@);
        if fmt.target_index < cols.len() {
            add_font(fonts, &cols[fmt.target_index]);
        }
    }
}

/// The dialogue text of an event line (see `dialogue_content`).
fn dialogue_content_chars(line: &Vec<char>) -> (r: Option<Vec<char>>)
    ensures
        r matches Some(c) ==> dialogue_content(line@) == Some(c@),
        r is None ==> dialogue_content(line@) is None,
{
    assert(line@.subrange(0, line@.len() as int) =~= line@);
    match find_char_in(line, ':', 0, line.len()) {
        Some(k) => {
            let head = copy_range(line, 0, k);
            assert(head@ =~= line@.take(k as int));
            if eq_chars(&head, &chars_of("Dialogue")) {
                let tail = copy_range(line, k + 1, line.len());
                assert(tail@ =~= line@.skip(k + 1));
                Some(trim_start_chars(&tail))
            } else {
                None
            }
        },
        None => None,
    }
}

/// Reads a line of the events section.
pub fn handle_event(line: &Vec<char>, fmt: &mut ColFormat, fonts: &mut FontSet)
    ensures
        (*final(fmt), final(fonts)@) == event_line(line@, *old(fmt), old(fonts)@),
{
    let format_tag = chars_of("Format:");
    if let Some(rest) = strip_prefix_chars(line, &format_tag) {
        fmt.update_from_format_line(&rest, &chars_of("text"));
    } else if let Some(content) = dialogue_content_chars(line) {
        let cols = splitn_range(&content, ',', fmt.columns_count, 0, content.len());
        assert(content@.subrange(0, content@.len() as int) =~= content@);
        if fmt.target_index < cols.len() {
            scan_inline_tags_chars(&cols[fmt.target_index], fonts);
        }
    }
}

/// The state of a reading: the current section, the formats of the styles
/// and of the events, and the fonts found so far.
pub type ScanState = (Section, ColFormat, ColFormat, Set<Seq<char>>);

/// The state before the first line.
pub open spec fn initial_scan() -> ScanState {
    (Section::Other, style_default_format(), event_default_format(), Set::empty())
}

/// What a trimmed line does to the state: an empty line nothing; a line in
/// square brackets opens a section; other lines are read by their section.
pub open spec fn step_line(st: ScanState, line: Seq<char>) -> ScanState {
    if line.len() == 0 {
        st
    } else if line[0] == '[' && line.last() == ']' {
        (section_of_header(line), st.1, st.2, st.3)
    } else {
        match st.0 {
            Section::Styles => {
                let r = style_line(line, st.1, st.3);
                (st.0, r.0, st.2, r.1)
            },
            Section::Events => {
                let r = event_line(line, st.2, st.3);
                (st.0, st.1, r.0, r.1)
            },
            Section::Other => st,
        }
    }
}

/// The state once every line of `s` is read. Lines end at `\n` and are
/// trimmed (so a `\r` before the `\n` goes too), as `str::lines` followed
/// by `str::trim` gives them.
pub open spec fn scan_text(s: Seq<char>, st: ScanState) -> ScanState
    decreases s.len(),
{
    if let Some(i) = find_char(s, '\n') {
        proof {
            lemma_find_char(s, '\n');
        }
        scan_text(s.skip(i + 1), step_line(st, trim(s.take(i))))
    } else {
        step_line(st, trim(s))
    }
}

/// The fonts that the ASS text `s` uses.
pub open spec fn ass_fonts(s: Seq<char>) -> Set<Seq<char>> {
    scan_text(s, initial_scan()).3
}

/// Reads one trimmed line.
fn read_line(
    line: &Vec<char>,
    section: &mut Section,
    style_fmt: &mut ColFormat,
    event_fmt: &mut ColFormat,
    fonts: &mut FontSet,
)
    ensures
        (*final(section), *final(style_fmt), *final(event_fmt), final(fonts)@) == step_line(
            (*old(section), *old(style_fmt), *old(event_fmt), old(fonts)@),
            line@,
        ),
{
    if line.len() == 0 {
        return ;
    }
    if line[0] == '[' && line[line.len() - 1] == ']' {
        *section = Section::from_header(line);
        return ;
    }
    match *section {
        Section::Styles => handle_style(line, style_fmt, fonts),
        Section::Events => handle_event(line, event_fmt, fonts),
        Section::Other => {},
    }
}

/// The fonts that the ASS subtitle text `ass` uses, each once, in ascending
/// order: the `Fontname` column of every style, and every font named by an
/// `\fn` override tag in the text of a dialogue event. Names are trimmed,
/// lose a leading `@`, and are left out when empty.
pub fn extract_fonts(ass: &str) -> (r: Vec<String>)
    ensures
        lists_in_order(string_views(r@), ass_fonts(ass@)),
{
    let text = chars_of(ass);
    let mut section = Section::Other;
    let mut style_fmt = ColFormat::style_default();
    let mut event_fmt = ColFormat::event_default();
    let mut fonts = FontSet::new();
    let ghost goal = scan_text(text@, initial_scan());
    let mut pos: usize = 0;
    let mut done = false;
    assert(text@.subrange(0, text@.len() as int) =~= text@);
    while !done
        invariant
            pos <= text.len(),
            done ==> goal == (section, style_fmt, event_fmt, fonts@),
            !done ==> goal == scan_text(
                text@.subrange(pos as int, text@.len() as int),
                (section, style_fmt, event_fmt, fonts@),
            ),
        decreases text.len() - pos, (if done { 0int } else { 1int }),
    {
        let ghost rest = text@.subrange(pos as int, text@.len() as int);
        match find_char_in(&text, '\n', pos, text.len()) {
            Some(nl) => {
                let line = trim_range(&text, pos, nl);
                assert(rest.take(nl - pos) =~= text@.subrange(pos as int, nl as int));
                assert(rest.skip(nl - pos + 1) =~= text@.subrange(nl + 1, text@.len() as int));
                read_line(&line, &mut section, &mut style_fmt, &mut event_fmt, &mut fonts);
                pos = nl + 1;
            },
            None => {
                let line = trim_range(&text, pos, text.len());
                read_line(&line, &mut section, &mut style_fmt, &mut event_fmt, &mut fonts);
                done = true;
            },
        }
    }
    fonts.to_vec()
}


/// Comment events are not read: a line of the events section that starts
/// with `Comment:` changes neither the format nor the fonts.
pub proof fn law_comments_add_no_font(line: Seq<char>, fmt: ColFormat, fonts: Set<Seq<char>>)
    requires
        strip_prefix(line, "Comment:"@) is Some,
    ensures
        event_line(line, fmt, fonts) == (fmt, fonts),
{
    reveal_strlit("Comment:");
    reveal_strlit("Format:");
    reveal_strlit("Dialogue");
    assert(line.take(8) == "Comment:"@);
    assert("Comment:"@[0] == 'C' && "Comment:"@[7] == ':');
    assert(line.take(8)[0] == line[0] && line.take(8)[7] == line[7]);
    assert(line[0] == 'C');
    if strip_prefix(line, "Format:"@) is Some {
        assert(line.take(7)[0] == 'F');
    }
    lemma_find_char(line, ':');
    assert(line[7] == ':');
    assert forall|j: int| 0 <= j < 7 implies line[j] != ':' by {
        assert(line[j] == line.take(8)[j]);
    }
    if let Some(i) = find_char(line, ':') {
        assert(i == 7);
        assert(line.take(i).len() != "Dialogue"@.len());
    }
}

/// The text with the `\r` of every `\r\n` removed.
pub open spec fn without_cr_before_lf(s: Seq<char>) -> Seq<char>
    decreases s.len(),
{
    if s.len() == 0 {
        s
    } else if s.len() >= 2 && s[0] == '\r' && s[1] == '\n' {
        without_cr_before_lf(s.drop_first())
    } else {
        seq![s[0]] + without_cr_before_lf(s.drop_first())
    }
}

/// A line without the `\r` that ends it, if one does.
pub open spec fn without_final_cr(p: Seq<char>) -> Seq<char> {
    if p.len() > 0 && p.last() == '\r' {
        p.drop_last()
    } else {
        p
    }
}

proof fn lemma_no_lf_unchanged(s: Seq<char>)
    requires
        forall|j: int| 0 <= j < s.len() ==> s[j] != '\n',
    ensures
        without_cr_before_lf(s) == s,
    decreases s.len(),
{
    if s.len() > 0 {
        lemma_no_lf_unchanged(s.drop_first());
        assert(s.len() >= 2 ==> s[1] == s.drop_first()[0]);
        assert(seq![s[0]] + s.drop_first() =~= s);
    }
}

proof fn lemma_line_then_rest(p: Seq<char>, rest: Seq<char>)
    requires
        forall|j: int| 0 <= j < p.len() ==> p[j] != '\n',
    ensures
        without_cr_before_lf(p + seq!['\n'] + rest) == without_final_cr(p) + seq!['\n']
            + without_cr_before_lf(rest),
    decreases p.len(),
{
    let s = p + seq!['\n'] + rest;
    if p.len() == 0 {
        assert(s =~= seq!['\n'] + rest);
        assert(s.drop_first() =~= rest);
        assert(without_final_cr(p) =~= Seq::<char>::empty());
        assert(without_cr_before_lf(s) =~= seq!['\n'] + without_cr_before_lf(rest));
    } else {
        let q = p.drop_first();
        assert(s.drop_first() =~= q + seq!['\n'] + rest);
        lemma_line_then_rest(q, rest);
        if p[0] == '\r' && q.len() == 0 {
            assert(s[1] == '\n');
            assert(without_final_cr(p) =~= Seq::<char>::empty());
            assert(without_final_cr(q) =~= Seq::<char>::empty());
        } else {
            assert(s[0] == p[0]);
            if q.len() > 0 {
                assert(s[1] == q[0]);
                assert(q[0] == p[1]);
                assert(p.last() == q.last());
                if p.last() == '\r' {
                    assert(without_final_cr(p) =~= seq![p[0]] + without_final_cr(q));
                } else {
                    assert(without_final_cr(p) =~= seq![p[0]] + without_final_cr(q));
                }
            } else {
                assert(s[1] == '\n');
                assert(without_final_cr(p) =~= seq![p[0]]);
                assert(without_final_cr(q) =~= q);
            }
            assert(without_cr_before_lf(s) =~= seq![p[0]] + without_cr_before_lf(s.drop_first()));
        }
    }
}

proof fn lemma_trim_start_push_ws(x: Seq<char>, c: char)
    requires
        is_ws(c),
    ensures
        trim_start(x.push(c)) == if trim_start(x).len() == 0 {
            Seq::<char>::empty()
        } else {
            trim_start(x).push(c)
        },
    decreases x.len(),
{
    assert(x.push(c)[0] == if x.len() == 0 { c } else { x[0] });
    if x.len() == 0 {
        assert(x.push(c).drop_first() =~= Seq::<char>::empty());
        assert(trim_start(Seq::<char>::empty()) == Seq::<char>::empty());
        assert(trim_start(x.push(c)) == trim_start(x.push(c).drop_first()));
    } else if is_ws(x[0]) {
        assert(x.push(c).drop_first() =~= x.drop_first().push(c));
        lemma_trim_start_push_ws(x.drop_first(), c);
        assert(trim_start(x.push(c)) == trim_start(x.push(c).drop_first()));
        assert(trim_start(x) == trim_start(x.drop_first()));
    } else {
        assert(trim_start(x.push(c)) == x.push(c));
        assert(trim_start(x) == x);
    }
}

proof fn lemma_trim_drops_final_cr(p: Seq<char>)
    ensures
        trim(without_final_cr(p)) == trim(p),
{
    if p.len() > 0 && p.last() == '\r' {
        let x = p.drop_last();
        assert(p =~= x.push('\r'));
        lemma_trim_start_push_ws(x, '\r');
        if trim_start(x).len() > 0 {
            assert(trim_start(x).push('\r').drop_last() =~= trim_start(x));
        }
    }
}

/// The text with every `\n` replaced by `\r\n`.
pub open spec fn with_crlf(s: Seq<char>) -> Seq<char>
    decreases s.len(),
{
    if s.len() == 0 {
        s
    } else if s[0] == '\n' {
        seq!['\r', '\n'] + with_crlf(s.drop_first())
    } else {
        seq![s[0]] + with_crlf(s.drop_first())
    }
}

/// Removing the `\r` of every `\r\n` undoes replacing each `\n` by `\r\n`.
proof fn lemma_crlf_undone(s: Seq<char>)
    ensures
        without_cr_before_lf(with_crlf(s)) == s,
        with_crlf(s).len() > 0 ==> with_crlf(s)[0] != '\n',
        with_crlf(s).len() == 0 <==> s.len() == 0,
    decreases s.len(),
{
    if s.len() > 0 {
        let rest = s.drop_first();
        let w = with_crlf(rest);
        lemma_crlf_undone(rest);
        if s[0] == '\n' {
            let t = seq!['\r', '\n'] + w;
            assert(t.drop_first() =~= seq!['\n'] + w);
            assert((seq!['\n'] + w).drop_first() =~= w);
            assert(without_cr_before_lf(seq!['\n'] + w) == seq!['\n'] + without_cr_before_lf(w));
            assert(s =~= seq!['\n'] + rest);
        } else {
            let t = seq![s[0]] + w;
            assert(t.drop_first() =~= w);
            if t.len() >= 2 {
                assert(t[1] == w[0]);
            }
            assert(s =~= seq![s[0]] + rest);
        }
    }
}

/// Writing a text with `\r\n` line endings in place of `\n` ones changes
/// nothing in the fonts it is found to use.
pub proof fn law_crlf_replacement_reads_alike(s: Seq<char>)
    ensures
        ass_fonts(with_crlf(s)) == ass_fonts(s),
{
    lemma_crlf_undone(s);
    law_crlf_reads_like_lf(with_crlf(s), initial_scan());
}

/// `\r\n` line endings are read like `\n` ones: removing the `\r` of every
/// `\r\n` changes nothing in what a reading of the text finds.
pub proof fn law_crlf_reads_like_lf(s: Seq<char>, st: ScanState)
    ensures
        scan_text(without_cr_before_lf(s), st) == scan_text(s, st),
    decreases s.len(),
{
    lemma_find_char(s, '\n');
    if let Some(i) = find_char(s, '\n') {
        let p = s.take(i);
        let rest = s.skip(i + 1);
        assert(s =~= p + seq!['\n'] + rest);
        assert forall|j: int| 0 <= j < p.len() implies p[j] != '\n' by {
            assert(p[j] == s[j]);
        }
        lemma_line_then_rest(p, rest);
        let w = without_cr_before_lf(s);
        let q = without_final_cr(p);
        assert(w == q + seq!['\n'] + without_cr_before_lf(rest));
        assert forall|j: int| 0 <= j < q.len() implies q[j] != '\n' by {
            assert(q[j] == p[j]);
        }
        lemma_find_char(w, '\n');
        assert(w[q.len() as int] == '\n');
        assert(first_at(w, '\n', q.len() as int)) by {
            assert forall|j: int| 0 <= j < q.len() implies w[j] != '\n' by {
                assert(w[j] == q[j]);
            }
        }
        if let Some(k) = find_char(w, '\n') {
            if k < q.len() {
                assert(w[k] == q[k]);
            }
        }
        assert(w.take(q.len() as int) =~= q);
        assert(w.skip(q.len() as int + 1) =~= without_cr_before_lf(rest));
        lemma_trim_drops_final_cr(p);
        law_crlf_reads_like_lf(rest, step_line(st, trim(p)));
    } else {
        lemma_no_lf_unchanged(s);
    }
}

/// The lines of a text, split at `\n` and trimmed.
pub open spec fn trimmed_lines(s: Seq<char>) -> Seq<Seq<char>> {
    split_char(s, '\n').map_values(|l: Seq<char>| trim(l))
}

/// The state once the (trimmed) lines are read in order.
pub open spec fn scan_lines(lines: Seq<Seq<char>>, st: ScanState) -> ScanState
    decreases lines.len(),
{
    if lines.len() == 0 {
        st
    } else {
        scan_lines(lines.drop_first(), step_line(st, lines[0]))
    }
}

/// A reading of a text is the reading of its trimmed lines.
pub proof fn lemma_scan_text_by_lines(s: Seq<char>, st: ScanState)
    ensures
        scan_text(s, st) == scan_lines(trimmed_lines(s), st),
    decreases s.len(),
{
    lemma_find_char(s, '\n');
    if let Some(i) = find_char(s, '\n') {
        lemma_scan_text_by_lines(s.skip(i + 1), step_line(st, trim(s.take(i))));
        let t = trimmed_lines(s);
        assert(split_char(s, '\n') == seq![s.take(i)] + split_char(s.skip(i + 1), '\n'));
        assert(t =~= seq![trim(s.take(i))] + trimmed_lines(s.skip(i + 1)));
        assert(t.drop_first() =~= trimmed_lines(s.skip(i + 1)));
        assert(t[0] == trim(s.take(i)));
        assert(scan_text(s, st) == scan_text(s.skip(i + 1), step_line(st, trim(s.take(i)))));
    } else {
        let t = trimmed_lines(s);
        assert(split_char(s, '\n') == seq![s]);
        assert(t =~= seq![trim(s)]);
        assert(t.drop_first() =~= Seq::<Seq<char>>::empty());
        assert(t[0] == trim(s));
        assert(scan_lines(t.drop_first(), step_line(st, trim(s))) == step_line(st, trim(s)));
    }
}

/// Only the trimmed lines of a text matter: two texts whose lines are the
/// same once trimmed (spaces or tabs added around lines, for instance) are
/// read alike.
pub proof fn law_only_trimmed_lines_matter(s: Seq<char>, t: Seq<char>, st: ScanState)
    requires
        trimmed_lines(s) == trimmed_lines(t),
    ensures
        scan_text(s, st) == scan_text(t, st),
        ass_fonts(s) == ass_fonts(t),
{
    lemma_scan_text_by_lines(s, st);
    lemma_scan_text_by_lines(t, st);
    lemma_scan_text_by_lines(s, initial_scan());
    lemma_scan_text_by_lines(t, initial_scan());
}

/// A trimmed line that opens a section.
pub open spec fn is_header_line(l: Seq<char>) -> bool {
    l.len() > 0 && l[0] == '[' && l.last() == ']'
}

proof fn lemma_scan_lines_append(a: Seq<Seq<char>>, b: Seq<Seq<char>>, st: ScanState)
    ensures
        scan_lines(a + b, st) == scan_lines(b, scan_lines(a, st)),
    decreases a.len(),
{
    if a.len() == 0 {
        assert(a + b =~= b);
    } else {
        assert((a + b).drop_first() =~= a.drop_first() + b);
        assert((a + b)[0] == a[0]);
        lemma_scan_lines_append(a.drop_first(), b, step_line(st, a[0]));
    }
}

proof fn lemma_other_lines_ignored(lines: Seq<Seq<char>>, st: ScanState)
    requires
        st.0 == Section::Other,
        forall|k: int| 0 <= k < lines.len() ==> !is_header_line(#[trigger] lines[k]),
    ensures
        scan_lines(lines, st) == st,
    decreases lines.len(),
{
    if lines.len() > 0 {
        assert(!is_header_line(lines[0]));
        assert forall|k: int| 0 <= k < lines.drop_first().len() implies !is_header_line(
            #[trigger] lines.drop_first()[k],
        ) by {
            assert(lines.drop_first()[k] == lines[k + 1]);
        }
        lemma_other_lines_ignored(lines.drop_first(), st);
    }
}

proof fn lemma_find_char_concat(a: Seq<char>, b: Seq<char>, c: char)
    ensures
        find_char(a + b, c) == match find_char(a, c) {
            Some(i) => Some(i),
            None => match find_char(b, c) {
                Some(j) => Some(a.len() + j),
                None => None,
            },
        },
    decreases a.len(),
{
    if a.len() == 0 {
        assert(a + b =~= b);
    } else {
        assert((a + b)[0] == a[0]);
        assert((a + b).drop_first() =~= a.drop_first() + b);
        lemma_find_char_concat(a.drop_first(), b, c);
    }
}

proof fn lemma_split_concat(x: Seq<char>, y: Seq<char>, c: char)
    ensures
        split_char(x + seq![c] + y, c) == split_char(x, c) + split_char(y, c),
    decreases x.len(),
{
    let z = x + seq![c] + y;
    assert(z =~= x + (seq![c] + y));
    lemma_find_char_concat(x, seq![c] + y, c);
    assert(find_char(seq![c] + y, c) == Some(0int));
    lemma_find_char(x, c);
    lemma_find_char(z, c);
    if let Some(i) = find_char(x, c) {
        assert(z.take(i) =~= x.take(i));
        assert(z.skip(i + 1) =~= x.skip(i + 1) + seq![c] + y);
        lemma_split_concat(x.skip(i + 1), y, c);
        assert(split_char(z, c) == seq![x.take(i)] + split_char(z.skip(i + 1), c));
        assert(split_char(x, c) == seq![x.take(i)] + split_char(x.skip(i + 1), c));
        assert(split_char(z, c) =~= split_char(x, c) + split_char(y, c));
    } else {
        assert(z.take(x.len() as int) =~= x);
        assert(z.skip(x.len() as int + 1) =~= y);
        assert(split_char(x, c) == seq![x]);
        assert(split_char(z, c) =~= split_char(x, c) + split_char(y, c));
    }
}

proof fn lemma_trimmed_lines_concat(x: Seq<char>, y: Seq<char>)
    ensures
        trimmed_lines(x + seq!['\n'] + y) == trimmed_lines(x) + trimmed_lines(y),
{
    lemma_split_concat(x, y, '\n');
    assert(trimmed_lines(x + seq!['\n'] + y) =~= trimmed_lines(x) + trimmed_lines(y));
}

/// Lines outside the styles and events sections are not read: a
/// `[Script Info]` section whose lines open no section changes nothing in
/// what a text is found to use.
pub proof fn law_other_section_ignored(junk: Seq<char>, ass: Seq<char>)
    requires
        forall|k: int|
            0 <= k < trimmed_lines(junk).len() ==> !is_header_line(
                #[trigger] trimmed_lines(junk)[k],
            ),
    ensures
        ass_fonts("[Script Info]"@ + seq!['\n'] + junk + seq!['\n'] + ass) == ass_fonts(ass),
{
    reveal_strlit("[Script Info]");
    reveal_strlit("[V4+ Styles]");
    reveal_strlit("[V4 Styles]");
    reveal_strlit("[V4++ Styles]");
    reveal_strlit("[Events]");
    let h = "[Script Info]"@;
    let text = h + seq!['\n'] + junk + seq!['\n'] + ass;
    lemma_trimmed_lines_concat(h, junk + seq!['\n'] + ass);
    lemma_trimmed_lines_concat(junk, ass);
    assert(text =~= h + seq!['\n'] + (junk + seq!['\n'] + ass));
    lemma_find_char(h, '\n');
    if let Some(i) = find_char(h, '\n') {
        assert(h[i] == '\n');
    }
    assert(split_char(h, '\n') == seq![h]);
    assert(!is_ws(h[0]) && !is_ws(h.last()));
    assert(trim_start(h) == h);
    assert(trim_end(h) == h);
    assert(trimmed_lines(h) =~= seq![h]);
    assert(h[1] == 'S');
    assert(h != "[V4++ Styles]"@) by {
        assert("[V4++ Styles]"@[1] == 'V');
    }
    assert(section_of_header(h) == Section::Other);
    let init = initial_scan();
    assert(step_line(init, h) == init);
    let lines = trimmed_lines(text);
    assert(lines =~= seq![h] + trimmed_lines(junk) + trimmed_lines(ass));
    lemma_scan_lines_append(seq![h] + trimmed_lines(junk), trimmed_lines(ass), init);
    lemma_scan_lines_append(seq![h], trimmed_lines(junk), init);
    assert(seq![h].drop_first() =~= Seq::<Seq<char>>::empty());
    assert(seq![h][0] == h);
    assert(scan_lines(Seq::<Seq<char>>::empty(), init) == init);
    assert(scan_lines(seq![h], init) == init);
    lemma_other_lines_ignored(trimmed_lines(junk), init);
    lemma_scan_text_by_lines(text, init);
    lemma_scan_text_by_lines(ass, init);
}

/// Reading the tags of a block never drops a font.
pub proof fn lemma_tag_fonts_grow(fonts: Set<Seq<char>>, tags: Seq<Seq<char>>)
    ensures
        fonts.subset_of(with_tag_fonts(fonts, tags)),
    decreases tags.len(),
{
    if tags.len() > 0 {
        lemma_tag_fonts_grow(fonts, tags.drop_last());
    }
}

/// Reading the override blocks of a text never drops a font.
pub proof fn lemma_inline_fonts_grow(fonts: Set<Seq<char>>, text: Seq<char>)
    ensures
        fonts.subset_of(with_inline_fonts(fonts, text)),
    decreases text.len(),
{
    if let Some(o) = find_char(text, '{') {
        let rest = text.skip(o + 1);
        if let Some(cl) = find_char(rest, '}') {
            lemma_find_char(text, '{');
            lemma_find_char(rest, '}');
            let f = with_tag_fonts(fonts, split_char(rest.take(cl), '\\'));
            lemma_tag_fonts_grow(fonts, split_char(rest.take(cl), '\\'));
            lemma_inline_fonts_grow(f, rest.skip(cl + 1));
        }
    }
}

/// Reading a line never drops a font.
pub proof fn lemma_step_line_grows(st: ScanState, line: Seq<char>)
    ensures
        st.3.subset_of(step_line(st, line).3),
{
    if line.len() > 0 && !(line[0] == '[' && line.last() == ']') {
        match st.0 {
            Section::Events => {
                if strip_prefix(line, "Format:"@) is None {
                    if let Some(content) = dialogue_content(line) {
                        let cols = splitn_char(content, ',', st.2.columns_count as nat);
                        if (st.2.target_index as int) < cols.len() {
                            lemma_inline_fonts_grow(st.3, cols[st.2.target_index as int]);
                        }
                    }
                }
            },
            _ => {},
        }
    }
}

/// Reading the lines of an ASS text only ever adds fonts: every font found
/// before is still there at the end.
pub proof fn law_scan_only_adds(s: Seq<char>, st: ScanState)
    ensures
        st.3.subset_of(scan_text(s, st).3),
    decreases s.len(),
{
    if let Some(i) = find_char(s, '\n') {
        lemma_find_char(s, '\n');
        let next = step_line(st, trim(s.take(i)));
        lemma_step_line_grows(st, trim(s.take(i)));
        law_scan_only_adds(s.skip(i + 1), next);
    } else {
        lemma_step_line_grows(st, trim(s));
    }
}

/// The text that the bytes of a subtitle file stand for, once their
/// encoding is guessed by `chardetng` and they are decoded by `encoding_rs`.
pub uninterp spec fn auto_decoded(bytes: Seq<u8>) -> Seq<char>;

/// The bytes of the UTF-8 byte order mark.
pub open spec fn starts_with_utf8_bom(bytes: Seq<u8>) -> bool {
    bytes.len() >= 3 && bytes[0] == 0xEFu8 && bytes[1] == 0xBBu8 && bytes[2] == 0xBFu8
}

/// Valid UTF-8 with no byte order mark and no escape byte (0x1B).
pub open spec fn plain_utf8(bytes: Seq<u8>) -> bool {
    valid_utf8(bytes) && !starts_with_utf8_bom(bytes) && !bytes.contains(0x1Bu8)
}

/// `chardetng::EncodingDetector` (`new`, `feed` with the whole input,
/// `guess` with no top-level domain and UTF-8 allowed) followed by
/// `encoding_rs::Encoding::decode` with the guessed encoding. Claimed: the
/// text is `auto_decoded` of the bytes; and, as `decode` sniffs a byte order
/// mark, bytes that start with the UTF-8 one and are valid UTF-8 after it
/// give the UTF-8 decoding of the rest; and, as the detector keeps UTF-8 as
/// its guess for valid UTF-8 (save for escape sequences in otherwise ASCII
/// input, which it reads as ISO-2022-JP), valid UTF-8 with no escape byte
/// and no byte order mark decodes to itself. Nothing else is said of the
/// guess.
#[verifier::external_body]
fn decode_with_guessed_encoding(bytes: &[u8]) -> (r: String)
    requires
        bytes@.len() <= usize::MAX / 8,
    ensures
        r@ == auto_decoded(bytes@),
        starts_with_utf8_bom(bytes@) && valid_utf8(bytes@.skip(3)) ==> r@ == decode_utf8(
            bytes@.skip(3),
        ),
        plain_utf8(bytes@) ==> r@ == decode_utf8(bytes@),
{
    let mut detector = chardetng::EncodingDetector::new();
    detector.feed(bytes, true);
    detector.guess(None, true).decode(bytes).0.into_owned()
}

/// Decodes the bytes of a subtitle file, whose encoding (Shift-JIS, UTF-8,
/// GBK, ...) is guessed from the bytes themselves.
pub fn decode_text_auto(bytes: &[u8]) -> (r: String)
    requires
        bytes@.len() <= usize::MAX / 8,
    ensures
        r@ == auto_decoded(bytes@),
        starts_with_utf8_bom(bytes@) && valid_utf8(bytes@.skip(3)) ==> r@ == decode_utf8(
            bytes@.skip(3),
        ),
        plain_utf8(bytes@) ==> r@ == decode_utf8(bytes@),
{
    decode_with_guessed_encoding(bytes)
}

/// A text in which `c` does not occur is one piece.
proof fn lemma_split_single(x: Seq<char>, c: char)
    requires
        forall|j: int| 0 <= j < x.len() ==> x[j] != c,
    ensures
        split_char(x, c) == seq![x],
{
    lemma_find_char(x, c);
    if let Some(i) = find_char(x, c) {
        assert(x[i] == c);
    }
}

/// A style line reads its font from the second column: in a styles
/// section, `Style: S,N,20` adds exactly the font `N`, for every name `N`
/// that starts and ends with a visible ASCII char other than `@` at its
/// start, and holds no comma and no line break.
pub proof fn law_style_line_names_its_font(name: Seq<char>)
    requires
        name.len() > 0,
        0x21 <= name[0] as u32 <= 0x7E,
        0x21 <= name.last() as u32 <= 0x7E,
        name[0] != '@',
        forall|j: int| 0 <= j < name.len() ==> name[j] != ',' && name[j] != '\n',
    ensures
        ass_fonts("[V4+ Styles]"@ + seq!['\n'] + "Style: S,"@ + name + ",20"@)
            == Set::<Seq<char>>::empty().insert(name),
{
    reveal_strlit("[V4+ Styles]");
    reveal_strlit("Style: S,");
    reveal_strlit(",20");
    reveal_strlit("Style:");
    reveal_strlit("Format:");
    let h = "[V4+ Styles]"@;
    let head = "Style: S,"@;
    let tail = ",20"@;
    let l = head + name + tail;
    let text = h + seq!['\n'] + l;
    assert(h.len() == 12 && head.len() == 9 && tail.len() == 3);
    assert forall|j: int| 0 <= j < h.len() implies h[j] != '\n' by {}
    assert forall|j: int| 0 <= j < l.len() implies l[j] != '\n' by {
        if j < 9 {
            assert(l[j] == head[j]);
        } else if j < 9 + name.len() {
            assert(l[j] == name[j - 9]);
        } else {
            assert(l[j] == tail[j - 9 - name.len()]);
        }
    }
    lemma_split_single(h, '\n');
    lemma_split_single(l, '\n');
    lemma_split_concat(h, l, '\n');
    assert(l[0] == 'S');
    assert(l.last() == '0');
    law_trim_keeps_visible_ends(h);
    law_trim_keeps_visible_ends(l);
    assert(trimmed_lines(text) =~= seq![h, l]);
    lemma_scan_text_by_lines(text, initial_scan());
    let st1 = step_line(initial_scan(), h);
    assert(st1 == (Section::Styles, style_default_format(), event_default_format(), Set::<
        Seq<char>,
    >::empty()));
    assert(seq![h, l].drop_first() =~= seq![l]);
    assert(seq![l].drop_first() =~= Seq::<Seq<char>>::empty());
    assert(seq![h, l][0] == h);
    assert(seq![l][0] == l);
    assert(scan_lines(seq![h, l], initial_scan()) == scan_lines(seq![l], st1));
    assert(scan_lines(seq![l], st1) == scan_lines(Seq::<Seq<char>>::empty(), step_line(st1, l)));
    assert(scan_lines(seq![h, l], initial_scan()) == step_line(st1, l));
    // The line is a style line, not a format line.
    assert(l.take(7)[0] != "Format:"@[0]);
    assert(strip_prefix(l, "Format:"@) is None);
    assert(l.take(6) =~= "Style:"@);
    let rest = l.skip(6);
    let first = seq![' ', 'S'];
    let two = seq!['2', '0'];
    assert(rest =~= first + seq![','] + (name + seq![','] + two));
    lemma_split_concat(first, name + seq![','] + two, ',');
    lemma_split_concat(name, two, ',');
    lemma_split_single(first, ',');
    lemma_split_single(name, ',');
    lemma_split_single(two, ',');
    let cols = split_char(rest, ',');
    assert(cols =~= seq![first, name, two]);
    assert(cols[1] == name);
    // The name is kept as it is.
    law_trim_keeps_visible_ends(name);
    assert(name.take(1)[0] != '@');
    assert(name.take(1) != seq!['@']);
    assert(strip_prefix(name, seq!['@']) is None);
    assert(clean_font_name(name) == name);
    assert(with_font(Set::<Seq<char>>::empty(), name) == Set::<Seq<char>>::empty().insert(name));
    assert(style_default_format().target_index == 1);
    assert(style_line(l, style_default_format(), Set::<Seq<char>>::empty()) == (
        style_default_format(),
        with_font(Set::<Seq<char>>::empty(), cols[1]),
    ));
    assert(step_line(st1, l).3 == Set::<Seq<char>>::empty().insert(name));
    assert("[V4+ Styles]"@ + seq!['\n'] + "Style: S,"@ + name + ",20"@ =~= text);
}

} // verus!
