use route::cli::{get_input_filename, Datafiles};
use route::location::{nearest_node, Address};

#[test]
fn create_df() {
    let df = Datafiles::new(
        "/mnt/vg1-data/Code/Rust/route".to_string(),
        Some("StBrieuc".to_string()),
        Some("osm.pbf".to_string()),
    );
    let r = "/mnt/vg1-data/Code/Rust/route/data/StBrieuc.osm.pbf".to_string();
    assert_eq!(&r, df.get_ifilepath());
    assert_eq!(r, df.get_ifile_str());
}

#[test]
fn default_input_filename() {
    assert_eq!(
        "/home/me/route/data/St_Brieuc-Loudéac.osm.pbf".to_string(),
        get_input_filename("/home/me/route".to_string(), None, None)
    );
    assert_eq!(
        "/home/me/route/data/town.osm".to_string(),
        get_input_filename("/home/me/route".to_string(), Some("town".to_string()), Some(
            "osm".to_string(),
        ))
    );
}

#[test]
fn extension_replaces_existing() {
    // a name that already carries an extension has it replaced, as
    // PathBuf::set_extension composes file names
    assert_eq!(
        "/r/data/town.osm.pbf".to_string(),
        get_input_filename("/r".to_string(), Some("town.osm".to_string()), None)
    );
    assert_eq!(
        "/r/data/town.osm.pbf".to_string(),
        get_input_filename("/r".to_string(), Some("town.".to_string()), Some(
            "osm.pbf".to_string(),
        ))
    );
}

#[test]
fn extension_appends_for_hidden_or_nested_names() {
    // a hidden file has no extension to replace; a dot before the final
    // path component does not count
    assert_eq!(
        "/r/data/.town.osm.pbf".to_string(),
        get_input_filename("/r".to_string(), Some(".town".to_string()), None)
    );
    assert_eq!(
        "/r/data/a.b/town.osm.pbf".to_string(),
        get_input_filename("/r".to_string(), Some("a.b/town".to_string()), None)
    );
}

#[test]
fn url_string_replaces_spaces() {
    let ad = Address { ad: "22 route des noels 22800 plaine-haute".to_string() };
    assert_eq!("22+route+des+noels+22800+plaine-haute".to_string(), ad.get_url_string());
}

#[test]
fn url_string_no_spaces() {
    let ad = Address { ad: "plaintel".to_string() };
    assert_eq!("plaintel".to_string(), ad.get_url_string());
}

#[test]
fn nearest_node_picks_first_minimum() {
    let cands: Vec<(i64, u64)> = vec![(5, 300), (7, 100), (9, 100), (3, 200)];
    assert_eq!((7, 100), nearest_node(&cands));
}

#[test]
fn nearest_node_empty() {
    let cands: Vec<(i64, u64)> = Vec::new();
    assert_eq!((0, u64::MAX), nearest_node(&cands));
}
