use flash_font::font_manager::{
    first_refused_path, FontError, FontManager, FontManagerConfig, FontRegistry,
    UnsupportedFontRegistry,
};
use flash_font::paths::{check_font_root_kind, check_font_root_text, CanonicalPath, FontRootError};

/// The canonical path with the text `text`.
fn canonical(text: &str) -> CanonicalPath {
    CanonicalPath::new(text.to_string()).expect("an absolute path")
}

fn canonicals(texts: &[&str]) -> Vec<CanonicalPath> {
    texts.iter().map(|t| canonical(t)).collect()
}

/// A registry that accepts every font.
struct AcceptAll;

impl FontRegistry for AcceptAll {
    fn add_font(_path: &str) -> Result<(), FontError> {
        Ok(())
    }
    fn remove_font(_path: &str) -> Result<(), FontError> {
        Ok(())
    }
    fn is_font_available(_family_name: &str) -> Result<bool, FontError> {
        Ok(true)
    }
}

/// A registry that refuses the fonts whose path contains `bad`.
struct RefuseBad;

impl FontRegistry for RefuseBad {
    fn add_font(path: &str) -> Result<(), FontError> {
        if path.contains("bad") {
            Err(FontError::LoadFailed(path.to_string()))
        } else {
            Ok(())
        }
    }
    fn remove_font(path: &str) -> Result<(), FontError> {
        if path.contains("stuck") {
            Err(FontError::UnloadFailed(path.to_string()))
        } else {
            Ok(())
        }
    }
    fn is_font_available(_family_name: &str) -> Result<bool, FontError> {
        Ok(false)
    }
}

#[test]
fn test_font_manager() {
    // `../fonts/方正少儿_GBK.ttf`, as canonicalization resolves it.
    let font_text = "/srv/fonts/方正少儿_GBK.ttf";
    let font_path = &canonical(font_text);

    let mut manager: FontManager<AcceptAll> = FontManager::new(FontManagerConfig {
        keep_loaded_fonts: false,
    });

    manager.load(font_path).unwrap();
    assert!(manager.loaded_fonts().contains(&font_text.to_string()));
    assert_eq!(manager.len(), 1);

    // Loading the same font again should be a no-op.
    manager.load(font_path).unwrap();
    assert_eq!(manager.len(), 1);

    manager.unload(font_path).unwrap();
    assert!(!manager.loaded_fonts().contains(&font_text.to_string()));
    assert!(manager.is_empty());
}

#[test]
fn unsupported_platform_refuses_loading() {
    let mut manager: FontManager<UnsupportedFontRegistry> = FontManager::default();
    let r = manager.load(&canonical("/C:/Fonts/a.ttf"));
    assert!(matches!(r, Err(FontError::UnsupportedPlatform)));
    assert!(manager.is_empty());
    assert!(manager.unload(&canonical("/C:/Fonts/a.ttf")).is_ok());
    assert!(manager.load_all(canonicals(&["/x.ttf"])).is_ok());
    assert!(manager.is_empty());
}

#[test]
fn equal_paths_are_one_key() {
    let mut manager: FontManager<AcceptAll> = FontManager::default();
    manager.load(&canonical("/fonts/a.ttf")).unwrap();
    manager.load(&canonical("/fonts//a.ttf")).unwrap();
    manager.load(&canonical("/fonts/./a.ttf")).unwrap();
    assert_eq!(manager.len(), 1);
    manager.unload(&canonical("/fonts//a.ttf")).unwrap();
    assert!(manager.is_empty());
}

#[test]
fn refused_font_is_not_recorded() {
    let mut manager: FontManager<RefuseBad> = FontManager::default();
    let r = manager.load(&canonical("/bad.ttf"));
    assert!(matches!(r, Err(FontError::LoadFailed(ref p)) if p == "/bad.ttf"));
    assert!(manager.is_empty());
}

#[test]
fn load_all_skips_refused_and_loaded_fonts() {
    let mut manager: FontManager<RefuseBad> = FontManager::default();
    manager.load(&canonical("/a.ttf")).unwrap();
    let r = manager.load_all(canonicals(&["/a.ttf", "/b.ttf", "/bad.ttf", "/b.ttf", "/c.ttf"]));
    assert!(r.is_ok());
    assert_eq!(manager.loaded_fonts(), vec!["/a.ttf", "/b.ttf", "/c.ttf"]);
}

#[test]
fn unload_all_reports_a_refusal_and_forgets_everything() {
    let mut manager: FontManager<RefuseBad> = FontManager::default();
    manager
        .load_all(canonicals(&["/a.ttf", "/stuck.ttf"]))
        .unwrap();
    assert_eq!(manager.len(), 2);
    let r = manager.unload_all();
    assert!(matches!(r, Err(FontError::UnloadFailed(ref p)) if p == "/stuck.ttf"));
    assert!(manager.is_empty());
    assert!(manager.unload_all().is_ok());
}

#[test]
fn unload_reports_refusal_after_forgetting() {
    let mut manager: FontManager<RefuseBad> = FontManager::default();
    manager.load(&canonical("/stuck.ttf")).unwrap();
    assert!(manager.unload(&canonical("/stuck.ttf")).is_err());
    assert!(manager.is_empty());
}

#[test]
fn release_follows_the_settings() {
    let mut keep: FontManager<AcceptAll> = FontManager::new(FontManagerConfig::default());
    keep.load(&canonical("/a.ttf")).unwrap();
    keep.release();
    assert_eq!(keep.len(), 1);

    let mut drop_all: FontManager<AcceptAll> = FontManager::new(FontManagerConfig {
        keep_loaded_fonts: false,
    });
    drop_all.load(&canonical("/a.ttf")).unwrap();
    drop_all.release();
    assert!(drop_all.is_empty());
}

#[test]
fn error_messages() {
    assert_eq!(
        FontError::LoadFailed("x.ttf".to_string()).message(),
        "failed to load font: `x.ttf`"
    );
    assert_eq!(
        FontError::UnloadFailed("x.ttf".to_string()).message(),
        "failed to unload font: `x.ttf`"
    );
    assert_eq!(
        FontError::MalformedPath("bad".to_string()).message(),
        "malformed font path: `bad`"
    );
    assert_eq!(FontError::UnsupportedPlatform.message(), "unsupported platform");
}

#[test]
fn unsupported_registry_answers_unsupported() {
    assert!(matches!(
        UnsupportedFontRegistry::is_font_available("Arial"),
        Err(FontError::UnsupportedPlatform)
    ));
    assert!(matches!(
        UnsupportedFontRegistry::remove_font("a.ttf"),
        Err(FontError::UnsupportedPlatform)
    ));
}

#[test]
fn record_loaded_hands_back_the_registry_answer() {
    let mut manager: FontManager<UnsupportedFontRegistry> = FontManager::default();
    assert!(!manager.is_loaded(&canonical("/a.ttf")));
    assert!(manager.record_loaded(&canonical("/a.ttf"), Ok(())).is_ok());
    assert!(manager.is_loaded(&canonical("/a.ttf")));
    assert!(manager.is_loaded(&canonical("/a.ttf/")));
    let r = manager.record_loaded(&canonical("/b.ttf"), Err(FontError::LoadFailed("b.ttf".to_string())));
    assert!(matches!(r, Err(FontError::LoadFailed(_))));
    assert_eq!(manager.loaded_fonts(), vec!["/a.ttf"]);
}

fn texts(paths: &[CanonicalPath]) -> Vec<String> {
    paths.iter().map(|c| c.as_str().to_string()).collect()
}

#[test]
fn record_accepted_keeps_each_accepted_path_once() {
    let mut manager: FontManager<UnsupportedFontRegistry> = FontManager::default();
    manager.record_loaded(&canonical("/a.ttf"), Ok(())).unwrap();
    let paths = canonicals(&["/b.ttf", "/a.ttf", "/b.ttf", "/c.ttf", "/d.ttf"]);
    let to_load = manager.not_loaded_paths(&paths);
    assert_eq!(texts(&to_load), vec!["/b.ttf", "/b.ttf", "/c.ttf", "/d.ttf"]);
    manager.record_accepted(&to_load, &vec![true, true, false, true]);
    assert_eq!(manager.loaded_fonts(), vec!["/a.ttf", "/b.ttf", "/d.ttf"]);
    assert!(manager.forget(&canonical("/b.ttf")));
    assert!(!manager.forget(&canonical("/b.ttf")));
    assert_eq!(manager.loaded_fonts(), vec!["/a.ttf", "/d.ttf"]);
}

#[test]
fn record_accepted_with_no_acceptance_records_nothing() {
    let mut manager: FontManager<UnsupportedFontRegistry> = FontManager::default();
    let to_load = canonicals(&["/a.ttf", "/b.ttf"]);
    manager.record_accepted(&to_load, &vec![false, false]);
    assert!(manager.is_empty());
}

#[test]
fn record_unloaded_hands_back_the_answer_and_forgets() {
    let mut manager: FontManager<UnsupportedFontRegistry> = FontManager::default();
    manager.record_loaded(&canonical("/a.ttf"), Ok(())).unwrap();
    manager.record_loaded(&canonical("/b.ttf"), Ok(())).unwrap();
    let r = manager.record_unloaded(
        &canonical("/a.ttf"),
        Err(FontError::UnloadFailed("/a.ttf".to_string())),
    );
    assert!(matches!(r, Err(FontError::UnloadFailed(ref p)) if p == "/a.ttf"));
    assert_eq!(manager.loaded_fonts(), vec!["/b.ttf"]);
    assert!(manager.record_unloaded(&canonical("/b.ttf"), Ok(())).is_ok());
    assert!(manager.is_empty());
}

#[test]
fn record_unloaded_all_names_the_first_refusal() {
    let mut manager: FontManager<UnsupportedFontRegistry> = FontManager::default();
    let paths = canonicals(&["/a.ttf", "/b.ttf", "/c.ttf"]);
    manager.record_accepted(&paths, &vec![true, true, true]);
    let r = manager.record_unloaded_all(&vec![false, true, true]);
    assert!(matches!(r, Err(FontError::UnloadFailed(ref p)) if p == "/b.ttf"));
    assert!(manager.is_empty());

    manager.record_accepted(&paths, &vec![true, true, true]);
    assert!(manager.record_unloaded_all(&vec![false, false, false]).is_ok());
    assert!(manager.is_empty());
}

#[test]
fn canonical_paths_are_absolute() {
    assert!(CanonicalPath::new("fonts/a.ttf".to_string()).is_none());
    assert!(CanonicalPath::new("".to_string()).is_none());
    let c = CanonicalPath::new("/fonts/a.ttf".to_string()).unwrap();
    assert_eq!(c.as_str(), "/fonts/a.ttf");
    assert_eq!(c.duplicate().as_str(), "/fonts/a.ttf");
}

#[test]
fn font_root_checks() {
    assert_eq!(check_font_root_text(""), Err(FontRootError::Empty));
    assert_eq!(check_font_root_text("fonts"), Err(FontRootError::NotAbsolute));
    assert_eq!(check_font_root_text("./fonts"), Err(FontRootError::NotAbsolute));
    assert_eq!(check_font_root_text("/srv/fonts"), Ok(()));
    assert_eq!(check_font_root_kind(true), Ok(()));
    assert_eq!(check_font_root_kind(false), Err(FontRootError::NotADirectory));
}

#[test]
fn first_refused_path_picks_the_first_refusal() {
    let paths = vec!["a".to_string(), "b".to_string(), "c".to_string()];
    assert_eq!(first_refused_path(&paths, &vec![false, true, true]), Some("b".to_string()));
    assert_eq!(first_refused_path(&paths, &vec![false, false, false]), None);
}
