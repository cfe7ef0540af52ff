//! Bookkeeping of fonts that are loaded into the system for a while: each
//! font file is registered at most once, keyed by its path.
use vstd::prelude::*;
use core::marker::PhantomData;
use crate::font_set::string_views;
use crate::paths::{CanonicalPath, path_views};

verus! {

/// Errors that can occur during font operations.
#[derive(Debug, Clone)]
pub enum FontError {
    /// The font at this path failed to load into the system.
    LoadFailed(String),
    /// The font at this path failed to unload from the system.
    UnloadFailed(String),
    /// The provided font path could not be converted to the system's form.
    MalformedPath(String),
    /// The current platform is not supported.
    UnsupportedPlatform,
}

impl FontError {
    /// The message that describes the error.
    pub fn message(&self) -> (r: String)
        ensures
            r@ == error_message(*self),
    {
        match self {
            FontError::LoadFailed(p) => {
                let mut s = String::from_str("failed to load font: `");
                s.append(p.as_str());
                s.append("`");
                s
            },
            FontError::UnloadFailed(p) => {
                let mut s = String::from_str("failed to unload font: `");
                s.append(p.as_str());
                s.append("`");
                s
            },
            FontError::MalformedPath(p) => {
                let mut s = String::from_str("malformed font path: `");
                s.append(p.as_str());
                s.append("`");
                s
            },
            FontError::UnsupportedPlatform => String::from_str("unsupported platform"),
        }
    }
}

/// The message of each error.
pub open spec fn error_message(e: FontError) -> Seq<char> {
    match e {
        FontError::LoadFailed(p) => "failed to load font: `"@ + p@ + "`"@,
        FontError::UnloadFailed(p) => "failed to unload font: `"@ + p@ + "`"@,
        FontError::MalformedPath(p) => "malformed font path: `"@ + p@ + "`"@,
        FontError::UnsupportedPlatform => "unsupported platform"@,
    }
}

/// The system's table of fonts, into which font files are loaded and from
/// which they are unloaded. What it answers is up to the platform: each
/// registry says which answers it may give to a request.
pub trait FontRegistry {
    /// Whether `answer` is one the registry may give when asked to load the
    /// font file at `path`; a registry that says nothing may give any.
    open spec fn may_answer_add(path: Seq<char>, answer: Result<(), FontError>) -> bool {
        true
    }

    /// Whether `answer` is one the registry may give when asked to unload
    /// the font file at `path`; a registry that says nothing may give any.
    open spec fn may_answer_remove(path: Seq<char>, answer: Result<(), FontError>) -> bool {
        true
    }

    /// Loads the font file at `path` into the system.
    fn add_font(path: &str) -> (r: Result<(), FontError>)
        ensures
            Self::may_answer_add(path@, r),
    ;

    /// Unloads the font file at `path` from the system.
    fn remove_font(path: &str) -> (r: Result<(), FontError>)
        ensures
            Self::may_answer_remove(path@, r),
    ;

    /// Whether the system offers a font of the family `family_name`.
    fn is_font_available(family_name: &str) -> Result<bool, FontError>;
}

/// The registry of a platform where fonts cannot be loaded: every request
/// fails with `UnsupportedPlatform`.
#[derive(Debug, Default)]
pub struct UnsupportedFontRegistry;

impl FontRegistry for UnsupportedFontRegistry {
    open spec fn may_answer_add(path: Seq<char>, answer: Result<(), FontError>) -> bool {
        answer == Err::<(), FontError>(FontError::UnsupportedPlatform)
    }

    open spec fn may_answer_remove(path: Seq<char>, answer: Result<(), FontError>) -> bool {
        answer == Err::<(), FontError>(FontError::UnsupportedPlatform)
    }

    fn add_font(path: &str) -> (r: Result<(), FontError>)
        ensures
            r == Err::<(), FontError>(FontError::UnsupportedPlatform),
    {
        Err(FontError::UnsupportedPlatform)
    }

    fn remove_font(path: &str) -> (r: Result<(), FontError>)
        ensures
            r == Err::<(), FontError>(FontError::UnsupportedPlatform),
    {
        Err(FontError::UnsupportedPlatform)
    }

    fn is_font_available(family_name: &str) -> (r: Result<bool, FontError>)
        ensures
            r == Err::<bool, FontError>(FontError::UnsupportedPlatform),
    {
        Err(FontError::UnsupportedPlatform)
    }
}

/// Whether the paths `a` and `b` are equal as `camino::Utf8Path` compares
/// them (component by component).
pub uninterp spec fn paths_equal(a: Seq<char>, b: Seq<char>) -> bool;

/// Whether `a` and `b` are the same key of the loaded fonts: the same text,
/// or equal paths.
pub open spec fn same_key(a: Seq<char>, b: Seq<char>) -> bool {
    a == b || paths_equal(a, b)
}

/// `<Utf8Path as PartialEq>::eq`. Claimed: the answer is `paths_equal` of
/// the two texts, and equal texts are equal paths (`Utf8Path` is `Eq`).
#[verifier::external_body]
fn same_path(a: &str, b: &str) -> (r: bool)
    ensures
        r == paths_equal(a@, b@),
        a@ == b@ ==> r,
{
    camino::Utf8Path::new(a) == camino::Utf8Path::new(b)
}

/// Whether the paths `a` and `b` are the same key (see `same_key`).
fn key_eq(a: &str, b: &str) -> (r: bool)
    ensures
        r == same_key(a@, b@),
{
    same_path(a, b)
}

/// Whether `paths` holds a path equal to `p`.
pub open spec fn holds_path(paths: Seq<Seq<char>>, p: Seq<char>) -> bool {
    exists|i: int| 0 <= i < paths.len() && same_key(p, paths[i])
}

/// No path of `paths` equals an earlier one.
pub open spec fn distinct_paths(paths: Seq<Seq<char>>) -> bool {
    forall|i: int, j: int| 0 <= i < j < paths.len() ==> !same_key(paths[j], paths[i])
}

/// `paths` without the paths equal to `p`.
pub open spec fn without_path(paths: Seq<Seq<char>>, p: Seq<char>) -> Seq<Seq<char>> {
    paths.filter(|q: Seq<char>| !same_key(p, q))
}

/// The paths of `paths` that `loaded` does not hold, in order.
pub open spec fn not_loaded(loaded: Seq<Seq<char>>, paths: Seq<Seq<char>>) -> Seq<Seq<char>>
    decreases paths.len(),
{
    if paths.len() == 0 {
        Seq::empty()
    } else {
        let r = not_loaded(loaded, paths.drop_last());
        if holds_path(loaded, paths.last()) {
            r
        } else {
            r.push(paths.last())
        }
    }
}

/// `loaded` once the paths of `added` are recorded in order, each unless an
/// equal path is held by then.
pub open spec fn with_recorded(loaded: Seq<Seq<char>>, added: Seq<Seq<char>>) -> Seq<Seq<char>>
    decreases added.len(),
{
    if added.len() == 0 {
        loaded
    } else {
        let r = with_recorded(loaded, added.drop_last());
        if holds_path(r, added.last()) {
            r
        } else {
            r.push(added.last())
        }
    }
}

/// The paths of `paths` whose flag in `flags` is set, in order.
pub open spec fn selected(paths: Seq<Seq<char>>, flags: Seq<bool>) -> Seq<Seq<char>>
    decreases paths.len(),
{
    if paths.len() == 0 || flags.len() == 0 {
        Seq::empty()
    } else {
        let r = selected(paths.drop_last(), flags.drop_last());
        if flags.last() {
            r.push(paths.last())
        } else {
            r
        }
    }
}

/// The first path of `paths` whose flag in `refused` is set.
pub open spec fn first_refused(paths: Seq<Seq<char>>, refused: Seq<bool>) -> Option<Seq<char>>
    decreases paths.len(),
{
    if paths.len() == 0 || refused.len() == 0 {
        None
    } else if refused[0] {
        Some(paths[0])
    } else {
        first_refused(paths.drop_first(), refused.drop_first())
    }
}

/// Which of the registry's answers accept.
pub open spec fn acceptances(answers: Seq<Result<(), FontError>>) -> Seq<bool> {
    answers.map_values(|a: Result<(), FontError>| a is Ok)
}

/// Which of the registry's answers refuse.
pub open spec fn refusals(answers: Seq<Result<(), FontError>>) -> Seq<bool> {
    answers.map_values(|a: Result<(), FontError>| a is Err)
}

/// With every flag set, all the paths are selected.
proof fn lemma_all_selected(paths: Seq<Seq<char>>, flags: Seq<bool>)
    requires
        flags.len() == paths.len(),
        forall|j: int| 0 <= j < flags.len() ==> #[trigger] flags[j],
    ensures
        selected(paths, flags) == paths,
    decreases paths.len(),
{
    if paths.len() > 0 {
        assert forall|j: int| 0 <= j < flags.drop_last().len() implies #[trigger] flags.drop_last()[j] by {
            assert(flags.drop_last()[j] == flags[j]);
        }
        lemma_all_selected(paths.drop_last(), flags.drop_last());
        assert(flags.last());
        assert(paths.drop_last().push(paths.last()) =~= paths);
    }
}

/// With no flag set, none is refused.
proof fn lemma_none_refused(paths: Seq<Seq<char>>, refused: Seq<bool>)
    requires
        forall|j: int| 0 <= j < refused.len() ==> !#[trigger] refused[j],
    ensures
        first_refused(paths, refused) is None,
    decreases paths.len(),
{
    if paths.len() > 0 && refused.len() > 0 {
        assert(!refused[0]);
        assert forall|j: int| 0 <= j < refused.drop_first().len() implies !#[trigger] refused.drop_first()[j] by {
            assert(refused.drop_first()[j] == refused[j + 1]);
        }
        lemma_none_refused(paths.drop_first(), refused.drop_first());
    }
}

/// The first of `paths` that the registry refused to unload
/// (`refused[i]` tells whether it refused `paths[i]`).
pub fn first_refused_path(paths: &Vec<String>, refused: &Vec<bool>) -> (r: Option<String>)
    requires
        paths.len() == refused.len(),
    ensures
        r matches Some(p) ==> first_refused(string_views(paths@), refused@) == Some(p@),
        r is None ==> first_refused(string_views(paths@), refused@) is None,
{
    let ghost ps = string_views(paths@);
    let mut i: usize = 0;
    assert(ps.skip(0) =~= ps);
    assert(refused@.skip(0) =~= refused@);
    while i < paths.len()
        invariant
            i <= paths.len() == refused.len(),
            ps == string_views(paths@),
            first_refused(ps, refused@) == first_refused(ps.skip(i as int), refused@.skip(
                i as int,
            )),
        decreases paths.len() - i,
    {
        if refused[i] {
            assert(ps.skip(i as int)[0] == paths@[i as int]@);
            return Some(paths[i].clone());
        }
        assert(ps.skip(i as int).drop_first() =~= ps.skip(i + 1));
        assert(refused@.skip(i as int).drop_first() =~= refused@.skip(i + 1));
        i += 1;
    }
    None
}

/// Settings of a font manager.
#[derive(Debug, Clone, Copy)]
pub struct FontManagerConfig {
    /// Whether the fonts stay loaded when the manager is released.
    pub keep_loaded_fonts: bool,
}

impl Default for FontManagerConfig {
    fn default() -> (r: FontManagerConfig)
        ensures
            r.keep_loaded_fonts,
    {
        FontManagerConfig { keep_loaded_fonts: true }
    }
}

/// Manages the fonts that are temporarily loaded into the system through
/// the registry `R`. Fonts are keyed by their canonical path
/// (`CanonicalPath`), so each physical font file is loaded at most once.
pub struct FontManager<R: FontRegistry> {
    loaded_fonts: Vec<String>,
    config: FontManagerConfig,
    registry: PhantomData<R>,
}

impl<R: FontRegistry> FontManager<R> {
    #[verifier::type_invariant]
    spec fn keyed_by_path(&self) -> bool {
        distinct_paths(string_views(self.loaded_fonts@))
    }
}

/// What a font manager holds: the paths of the loaded fonts, in the order
/// they were loaded, and the settings it was made with.
pub struct FontManagerView {
    pub fonts: Seq<Seq<char>>,
    pub config: FontManagerConfig,
}

impl<R: FontRegistry> View for FontManager<R> {
    type V = FontManagerView;

    closed spec fn view(&self) -> FontManagerView {
        FontManagerView { fonts: string_views(self.loaded_fonts@), config: self.config }
    }
}

impl<R: FontRegistry> FontManager<R> {
    /// An empty manager.
    pub fn new(config: FontManagerConfig) -> (r: Self)
        ensures
            r@.fonts == Seq::<Seq<char>>::empty(),
            r@.config == config,
    {
        let r = FontManager { loaded_fonts: Vec::new(), config, registry: PhantomData };
        assert(r@.fonts =~= Seq::<Seq<char>>::empty());
        r
    }

    /// An empty manager with the default settings (fonts stay loaded).
    pub fn default() -> (r: Self)
        ensures
            r@.fonts == Seq::<Seq<char>>::empty(),
            r@.config.keep_loaded_fonts,
    {
        Self::new(FontManagerConfig::default())
    }

    /// Where a path equal to `path` stands among the loaded fonts.
    fn position(&self, path: &str) -> (r: Option<usize>)
        ensures
            r matches Some(i) ==> i < self@.fonts.len() && same_key(path@, self@.fonts[i as int]),
            r is None ==> !holds_path(self@.fonts, path@),
    {
        let mut i: usize = 0;
        while i < self.loaded_fonts.len()
            invariant
                i <= self.loaded_fonts.len(),
                self@.fonts == string_views(self.loaded_fonts@),
                forall|j: int| 0 <= j < i ==> !same_key(path@, self@.fonts[j]),
            decreases self.loaded_fonts.len() - i,
        {
            if key_eq(path, self.loaded_fonts[i].as_str()) {
                return Some(i);
            }
            i += 1;
        }
        None
    }

    /// Adds `path` to the loaded fonts, known not to hold it.
    fn record(&mut self, path: String)
        requires
            !holds_path(old(self)@.fonts, path@),
        ensures
            final(self)@.fonts == old(self)@.fonts.push(path@),
            final(self)@.config == old(self)@.config,
    {
        proof {
            use_type_invariant(&*self);
        }
        let ghost p = path@;
        let mut fonts = Vec::new();
        std::mem::swap(&mut fonts, &mut self.loaded_fonts);
        let ghost before = string_views(fonts@);
        fonts.push(path);
        let ghost after = string_views(fonts@);
        assert(after =~= before.push(p));
        assert forall|i: int, j: int| 0 <= i < j < after.len() implies !same_key(
            after[j],
            after[i],
        ) by {
            if j == before.len() {
                assert(!same_key(p, before[i]));
            }
        }
        self.loaded_fonts = fonts;
    }

    /// Whether a font at a path equal to `path` is loaded.
    pub fn is_loaded(&self, path: &CanonicalPath) -> (r: bool)
        ensures
            r == holds_path(self@.fonts, path@),
    {
        self.position(path.as_str()).is_some()
    }

    /// Takes the registry's answer to loading `path`, which is not loaded
    /// yet: an accepted font is recorded; the answer is handed back.
    pub fn record_loaded(&mut self, path: &CanonicalPath, outcome: Result<(), FontError>) -> (r:
        Result<(), FontError>)
        requires
            !holds_path(old(self)@.fonts, path@),
        ensures
            r == outcome,
            final(self)@.config == old(self)@.config,
            outcome is Ok ==> final(self)@.fonts == old(self)@.fonts.push(path@),
            outcome is Err ==> final(self)@.fonts == old(self)@.fonts,
    {
        if outcome.is_ok() {
            self.record(path.as_str().to_owned());
        }
        outcome
    }

    /// Loads the font at the canonical path `path` unless a font at an equal
    /// path is loaded already, in which case nothing happens and the answer
    /// is `Ok`. Otherwise the registry is asked, and `record_loaded` takes
    /// its answer.
    pub fn load(&mut self, path: &CanonicalPath) -> (r: Result<(), FontError>)
        ensures
            final(self)@.config == old(self)@.config,
            holds_path(old(self)@.fonts, path@) ==> r is Ok && final(self)@.fonts == old(self)@.fonts,
            !holds_path(old(self)@.fonts, path@) ==> (r is Ok ==> final(self)@.fonts == old(self)@.fonts.push(
                path@,
            )) && (r is Err ==> final(self)@.fonts == old(self)@.fonts),
            r is Ok ==> holds_path(final(self)@.fonts, path@),
            !holds_path(old(self)@.fonts, path@) ==> R::may_answer_add(path@, r),
    {
        if !self.is_loaded(path) {
            let outcome = R::add_font(path.as_str());
            let r = self.record_loaded(path, outcome);
            proof {
                if r is Ok {
                    law_recorded_is_held(old(self)@.fonts, path@);
                }
            }
            return r;
        }
        Ok(())
    }

    /// The paths of `paths` that are not loaded, in order.
    pub fn not_loaded_paths(&self, paths: &Vec<CanonicalPath>) -> (r: Vec<CanonicalPath>)
        ensures
            path_views(r@) == not_loaded(self@.fonts, path_views(paths@)),
    {
        let ghost ps = path_views(paths@);
        let mut r: Vec<CanonicalPath> = Vec::new();
        let mut i: usize = 0;
        while i < paths.len()
            invariant
                i <= paths.len(),
                ps == path_views(paths@),
                path_views(r@) == not_loaded(self@.fonts, ps.take(i as int)),
            decreases paths.len() - i,
        {
            assert(ps.take(i + 1).drop_last() =~= ps.take(i as int));
            assert(ps.take(i + 1).last() == paths@[i as int]@);
            let ghost before = path_views(r@);
            if !self.is_loaded(&paths[i]) {
                let p = paths[i].duplicate();
                r.push(p);
                assert(path_views(r@) =~= before.push(p@));
            }
            i += 1;
        }
        assert(ps.take(paths.len() as int) =~= ps);
        r
    }

    /// Takes the registry's answers to loading the fonts of `to_load`
    /// (`accepted[i]` tells whether it accepted `to_load[i]`) and records the
    /// accepted ones in order, each unless a font at an equal path is loaded
    /// by then.
    pub fn record_accepted(&mut self, to_load: &Vec<CanonicalPath>, accepted: &Vec<bool>)
        requires
            to_load.len() == accepted.len(),
        ensures
            final(self)@.config == old(self)@.config,
            final(self)@.fonts == with_recorded(old(self)@.fonts, selected(path_views(to_load@), accepted@)),
    {
        let ghost start = self@.fonts;
        let ghost tv = path_views(to_load@);
        let mut i: usize = 0;
        while i < to_load.len()
            invariant
                i <= to_load.len() == accepted.len(),
                tv == path_views(to_load@),
                self@.config == old(self)@.config,
                self@.fonts == with_recorded(start, selected(tv.take(i as int), accepted@.take(i as int))),
            decreases to_load.len() - i,
        {
            assert(tv.take(i + 1).drop_last() =~= tv.take(i as int));
            assert(accepted@.take(i + 1).drop_last() =~= accepted@.take(i as int));
            assert(tv.take(i + 1).last() == to_load@[i as int]@);
            let ghost sel = selected(tv.take(i as int), accepted@.take(i as int));
            if accepted[i] {
                assert(selected(tv.take(i + 1), accepted@.take(i + 1)) == sel.push(
                    to_load@[i as int]@,
                ));
                assert(sel.push(to_load@[i as int]@).drop_last() =~= sel);
                if !self.is_loaded(&to_load[i]) {
                    self.record(to_load[i].as_str().to_owned());
                }
            }
            i += 1;
        }
        assert(tv.take(to_load.len() as int) =~= tv);
        assert(accepted@.take(accepted.len() as int) =~= accepted@);
    }

    /// Loads every font of `paths` (canonical paths) that is not loaded yet:
    /// each is handed to the registry in order, and `record_accepted` takes
    /// the answers (a path that occurs twice in `paths` is handed over twice
    /// and recorded once). Refused fonts are skipped; the answer is always
    /// `Ok`.
    pub fn load_all(&mut self, paths: Vec<CanonicalPath>) -> (r: Result<(), FontError>)
        ensures
            r is Ok,
            final(self)@.config == old(self)@.config,
            exists|answers: Seq<Result<(), FontError>>|
                {
                    &&& answers.len() == not_loaded(old(self)@.fonts, path_views(paths@)).len()
                    &&& forall|i: int|
                        0 <= i < answers.len() ==> R::may_answer_add(
                            #[trigger] not_loaded(old(self)@.fonts, path_views(paths@))[i],
                            answers[i],
                        )
                    &&& final(self)@.fonts == with_recorded(
                        old(self)@.fonts,
                        selected(
                            not_loaded(old(self)@.fonts, path_views(paths@)),
                            acceptances(answers),
                        ),
                    )
                },
            (forall|p: Seq<char>, a: Result<(), FontError>|
                #[trigger] R::may_answer_add(p, a) ==> a is Ok) ==> final(self)@.fonts
                == with_recorded(old(self)@.fonts, not_loaded(old(self)@.fonts, path_views(paths@))),
    {
        let to_load = self.not_loaded_paths(&paths);
        let ghost tv = path_views(to_load@);
        let ghost mut answers: Seq<Result<(), FontError>> = Seq::empty();
        let mut accepted: Vec<bool> = Vec::new();
        let mut i: usize = 0;
        while i < to_load.len()
            invariant
                i <= to_load.len(),
                tv == path_views(to_load@),
                accepted.len() == i,
                answers.len() == i,
                accepted@ == acceptances(answers),
                forall|j: int| 0 <= j < i ==> R::may_answer_add(#[trigger] tv[j], answers[j]),
            decreases to_load.len() - i,
        {
            let answer = R::add_font(to_load[i].as_str());
            let ok = answer.is_ok();
            proof {
                answers = answers.push(answer);
            }
            accepted.push(ok);
            assert(accepted@ =~= acceptances(answers));
            i += 1;
        }
        self.record_accepted(&to_load, &accepted);
        proof {
            if forall|p: Seq<char>, a: Result<(), FontError>|
                #[trigger] R::may_answer_add(p, a) ==> a is Ok {
                assert forall|j: int| 0 <= j < accepted@.len() implies #[trigger] accepted@[j] by {
                    assert(R::may_answer_add(tv[j], answers[j]));
                }
                lemma_all_selected(tv, accepted@);
            }
        }
        Ok(())
    }

    /// Forgets the fonts at paths equal to `path`; answers whether there
    /// were any.
    pub fn forget(&mut self, path: &CanonicalPath) -> (removed: bool)
        ensures
            final(self)@.config == old(self)@.config,
            final(self)@.fonts == without_path(old(self)@.fonts, path@),
            removed == holds_path(old(self)@.fonts, path@),
    {
        let text = path.as_str();
        proof {
            use_type_invariant(&*self);
        }
        let ghost start = self@.fonts;
        let mut kept: Vec<String> = Vec::new();
        let mut removed = false;
        let mut fonts = Vec::new();
        std::mem::swap(&mut fonts, &mut self.loaded_fonts);
        assert(string_views(fonts@) == start);
        let mut i: usize = 0;
        while i < fonts.len()
            invariant
                i <= fonts.len(),
                text@ == path@,
                string_views(fonts@) == start,
                distinct_paths(start),
                string_views(kept@) == without_path(start.take(i as int), path@),
                distinct_paths(string_views(kept@)),
                forall|a: int|
                    0 <= a < kept@.len() ==> exists|x: int|
                        0 <= x < i && #[trigger] kept@[a]@ == start[x],
                removed == holds_path(start.take(i as int), path@),
            decreases fonts.len() - i,
        {
            let ghost before = string_views(kept@);
            assert(start.take(i + 1).drop_last() =~= start.take(i as int));
            proof {
                reveal(Seq::filter);
                if holds_path(start.take(i + 1), path@) && !same_key(path@, start[i as int]) {
                    let w = choose|w: int|
                        0 <= w < start.take(i + 1).len() && #[trigger] same_key(
                            path@,
                            start.take(i + 1)[w],
                        );
                    assert(start.take(i as int)[w] == start.take(i + 1)[w]);
                }
                if holds_path(start.take(i as int), path@) {
                    let w = choose|w: int|
                        0 <= w < start.take(i as int).len() && #[trigger] same_key(
                            path@,
                            start.take(i as int)[w],
                        );
                    assert(start.take(i + 1)[w] == start.take(i as int)[w]);
                }
                if same_key(path@, start[i as int]) {
                    assert(start.take(i + 1)[i as int] == start[i as int]);
                }
            }
            if key_eq(text, fonts[i].as_str()) {
                removed = true;
            } else {
                let p = fonts[i].clone();
                kept.push(p);
                let ghost kv = string_views(kept@);
                assert(kv =~= before.push(start[i as int]));
                assert forall|a: int, b: int| 0 <= a < b < kv.len() implies !same_key(
                    kv[b],
                    kv[a],
                ) by {
                    if b == before.len() {
                        let x = choose|x: int| 0 <= x < i && #[trigger] kept@[a]@ == start[x];
                        assert(kept@[a]@ == kv[a]);
                    }
                }
                assert forall|a: int| 0 <= a < kept@.len() implies exists|x: int|
                    0 <= x < i + 1 && #[trigger] kept@[a]@ == start[x] by {
                    if a == before.len() {
                        assert(kept@[a]@ == start[i as int]);
                    } else {
                        assert(kept@[a]@ == before[a]);
                    }
                }
            }
            i += 1;
        }
        assert(start.take(fonts.len() as int) =~= start);
        self.loaded_fonts = kept;
        removed
    }

    /// Takes the registry's answer to unloading `path`: the fonts at paths
    /// equal to it are forgotten, and the answer is handed back.
    pub fn record_unloaded(&mut self, path: &CanonicalPath, answer: Result<(), FontError>) -> (r:
        Result<(), FontError>)
        ensures
            r == answer,
            final(self)@.config == old(self)@.config,
            final(self)@.fonts == without_path(old(self)@.fonts, path@),
    {
        self.forget(path);
        answer
    }

    /// Unloads the fonts at paths equal to `path`. When none is loaded this
    /// does nothing and answers `Ok`; otherwise the registry is asked, and
    /// `record_unloaded` forgets them and hands its answer back.
    pub fn unload(&mut self, path: &CanonicalPath) -> (r: Result<(), FontError>)
        ensures
            final(self)@.config == old(self)@.config,
            final(self)@.fonts == without_path(old(self)@.fonts, path@),
            !holds_path(old(self)@.fonts, path@) ==> r is Ok && final(self)@.fonts == old(self)@.fonts,
            r is Err ==> holds_path(old(self)@.fonts, path@),
            holds_path(old(self)@.fonts, path@) ==> R::may_answer_remove(path@, r),
    {
        if self.is_loaded(path) {
            let answer = R::remove_font(path.as_str());
            self.record_unloaded(path, answer)
        } else {
            proof {
                lemma_without_absent(self@.fonts, path@);
            }
            Ok(())
        }
    }

    /// Takes the registry's answers to unloading every loaded font
    /// (`refused[i]` tells whether it refused the `i`-th): all are forgotten,
    /// and the answer names the first refused font, if any.
    pub fn record_unloaded_all(&mut self, refused: &Vec<bool>) -> (r: Result<(), FontError>)
        requires
            refused.len() == old(self)@.fonts.len(),
        ensures
            final(self)@.config == old(self)@.config,
            final(self)@.fonts == Seq::<Seq<char>>::empty(),
            match first_refused(old(self)@.fonts, refused@) {
                Some(p) => r matches Err(FontError::UnloadFailed(q)) && q@ == p,
                None => r is Ok,
            },
    {
        let ghost start = self@.fonts;
        let mut fonts = Vec::new();
        std::mem::swap(&mut fonts, &mut self.loaded_fonts);
        assert(self@.fonts =~= Seq::<Seq<char>>::empty());
        match first_refused_path(&fonts, refused) {
            Some(p) => Err(FontError::UnloadFailed(p)),
            None => Ok(()),
        }
    }

    /// Unloads every font: each is handed to the registry in order, and
    /// `record_unloaded_all` takes the answers. All are forgotten; when the
    /// registry refuses some, the error names the first of them.
    pub fn unload_all(&mut self) -> (r: Result<(), FontError>)
        ensures
            final(self)@.config == old(self)@.config,
            final(self)@.fonts == Seq::<Seq<char>>::empty(),
            exists|answers: Seq<Result<(), FontError>>|
                #![trigger refusals(answers)]
                {
                    &&& answers.len() == old(self)@.fonts.len()
                    &&& forall|i: int|
                        0 <= i < answers.len() ==> R::may_answer_remove(
                            #[trigger] old(self)@.fonts[i],
                            answers[i],
                        )
                    &&& match first_refused(old(self)@.fonts, refusals(answers)) {
                        Some(p) => r matches Err(FontError::UnloadFailed(q)) && q@ == p,
                        None => r is Ok,
                    }
                },
            (forall|p: Seq<char>, a: Result<(), FontError>|
                #[trigger] R::may_answer_remove(p, a) ==> a is Ok) ==> r is Ok,
            r matches Err(e) ==> e matches FontError::UnloadFailed(p) && old(self)@.fonts.contains(
                p@,
            ),
            old(self)@.fonts.len() == 0 ==> r is Ok,
    {
        let fonts = self.loaded_fonts();
        let ghost held = old(self)@.fonts;
        let ghost mut answers: Seq<Result<(), FontError>> = Seq::empty();
        let mut refused: Vec<bool> = Vec::new();
        let mut i: usize = 0;
        while i < fonts.len()
            invariant
                i <= fonts.len(),
                string_views(fonts@) == held,
                refused.len() == i,
                answers.len() == i,
                refused@ == refusals(answers),
                forall|j: int| 0 <= j < i ==> R::may_answer_remove(#[trigger] held[j], answers[j]),
            decreases fonts.len() - i,
        {
            let answer = R::remove_font(fonts[i].as_str());
            let failed = answer.is_err();
            proof {
                answers = answers.push(answer);
                assert(held[i as int] == fonts@[i as int]@);
            }
            refused.push(failed);
            assert(refused@ =~= refusals(answers));
            i += 1;
        }
        proof {
            lemma_first_refused_in(old(self)@.fonts, refused@);
            if old(self)@.fonts.len() == 0 {
                assert(first_refused(old(self)@.fonts, refused@) is None);
            }
            if forall|p: Seq<char>, a: Result<(), FontError>|
                #[trigger] R::may_answer_remove(p, a) ==> a is Ok {
                assert forall|j: int| 0 <= j < refused@.len() implies !#[trigger] refused@[j] by {
                    assert(R::may_answer_remove(held[j], answers[j]));
                }
                lemma_none_refused(held, refused@);
            }
        }
        self.record_unloaded_all(&refused)
    }

    /// The paths of the loaded fonts.
    pub fn loaded_fonts(&self) -> (r: Vec<String>)
        ensures
            string_views(r@) == self@.fonts,
            distinct_paths(self@.fonts),
    {
        proof {
            use_type_invariant(self);
        }
        let mut r: Vec<String> = Vec::new();
        let mut i: usize = 0;
        while i < self.loaded_fonts.len()
            invariant
                i <= self.loaded_fonts.len(),
                string_views(r@) == self@.fonts.take(i as int),
            decreases self.loaded_fonts.len() - i,
        {
            let ghost before = string_views(r@);
            let p = self.loaded_fonts[i].clone();
            r.push(p);
            assert(string_views(r@) =~= before.push(self@.fonts[i as int]));
            assert(self@.fonts.take(i + 1) =~= self@.fonts.take(i as int).push(self@.fonts[i as int]));
            i += 1;
        }
        assert(self@.fonts.take(self@.fonts.len() as int) =~= self@.fonts);
        r
    }

    /// The number of loaded fonts.
    pub fn len(&self) -> (r: usize)
        ensures
            r == self@.fonts.len(),
            distinct_paths(self@.fonts),
    {
        proof {
            use_type_invariant(self);
        }
        self.loaded_fonts.len()
    }

    /// Whether no font is loaded.
    pub fn is_empty(&self) -> (r: bool)
        ensures
            r == (self@.fonts.len() == 0),
    {
        self.loaded_fonts.len() == 0
    }

    /// What the manager does when it is let go: unless its settings keep the
    /// fonts loaded, it unloads them all, ignoring failures.
    pub fn release(&mut self)
        ensures
            final(self)@.config == old(self)@.config,
            old(self)@.config.keep_loaded_fonts ==> final(self)@.fonts == old(self)@.fonts,
            !old(self)@.config.keep_loaded_fonts ==> final(self)@.fonts == Seq::<
                Seq<char>,
            >::empty(),
    {
        if !self.config.keep_loaded_fonts {
            let _ = self.unload_all();
        }
    }
}

/// The first refused path is one of the paths.
proof fn lemma_first_refused_in(paths: Seq<Seq<char>>, refused: Seq<bool>)
    ensures
        first_refused(paths, refused) matches Some(p) ==> paths.contains(p),
    decreases paths.len(),
{
    if paths.len() > 0 && refused.len() > 0 {
        if refused[0] {
            assert(paths[0] == paths[0]);
        } else {
            lemma_first_refused_in(paths.drop_first(), refused.drop_first());
            if let Some(p) = first_refused(paths, refused) {
                let k = choose|k: int| 0 <= k < paths.drop_first().len() && paths.drop_first()[k] == p;
                assert(paths[k + 1] == p);
            }
        }
    }
}

/// Dropping the paths equal to `p` changes nothing when none is held.
proof fn lemma_without_absent(s: Seq<Seq<char>>, p: Seq<char>)
    requires
        !holds_path(s, p),
    ensures
        without_path(s, p) == s,
    decreases s.len(),
{
    reveal(Seq::filter);
    if s.len() > 0 {
        assert(!holds_path(s.drop_last(), p)) by {
            if holds_path(s.drop_last(), p) {
                let i = choose|i: int| 0 <= i < s.drop_last().len() && #[trigger] same_key(p, s.drop_last()[i]);
                assert(s[i] == s.drop_last()[i]);
            }
        }
        lemma_without_absent(s.drop_last(), p);
        assert(!same_key(p, s[s.len() - 1]));
        assert(s.drop_last().push(s.last()) =~= s);
    } else {
        assert(s.filter(|q: Seq<char>| !same_key(p, q)) =~= s);
    }
}

/// After an unload of `p`, no font with a path equal to `p` is loaded.
pub proof fn law_unload_forgets(loaded: Seq<Seq<char>>, p: Seq<char>)
    ensures
        !holds_path(without_path(loaded, p), p),
{
    broadcast use vstd::seq_lib::group_filter_ensures;

    let kept = without_path(loaded, p);
    if holds_path(kept, p) {
        let i = choose|i: int| 0 <= i < kept.len() && same_key(p, kept[i]);
        assert(!same_key(p, kept[i]));
    }
}

/// A font that a load has just recorded is held, so loading it again is a
/// no-op that answers `Ok`.
pub proof fn law_recorded_is_held(loaded: Seq<Seq<char>>, p: Seq<char>)
    ensures
        holds_path(loaded.push(p), p),
{
    assert(loaded.push(p)[loaded.len() as int] == p);
}

} // verus!
