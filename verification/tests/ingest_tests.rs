use ycm::ConfigsDB;
use ycm::CoreError;
use ycm::ingest::file_name;
use ycm::ingest::initialize;
use ycm::ingest::register_file;
use ycm::ingest::source_path;

fn bv(s: &str) -> Vec<u8> {
    s.as_bytes().to_vec()
}

#[test]
fn file_name_takes_last_component() {
    assert_eq!(file_name(&bv("/home/u/.bashrc")), Some(bv(".bashrc")));
    assert_eq!(file_name(&bv("relative/path/x.conf")), Some(bv("x.conf")));
    assert_eq!(file_name(&bv("plain")), Some(bv("plain")));
    assert_eq!(file_name(&bv("/a/dir/")), Some(bv("dir")));
}

#[test]
fn file_name_rejects_unusable_paths() {
    assert_eq!(file_name(&bv("")), None);
    assert_eq!(file_name(&bv("/")), None);
    assert_eq!(file_name(&bv("///")), None);
    assert_eq!(file_name(&bv("/a/.")), None);
    assert_eq!(file_name(&bv("/a/..")), None);
    assert_eq!(file_name(&bv("..")), None);
}

#[test]
fn source_path_joins_store_name_and_filename() {
    assert_eq!(
        source_path(&bv("/store"), &bv("shell"), &bv(".bashrc")),
        bv("/store/shell/.bashrc")
    );
}

#[test]
fn register_file_records_derived_entry() {
    let mut db = ConfigsDB::default();
    let c = register_file(&mut db, &bv("shell"), &bv("/home/u/.bashrc"), &bv("/store")).unwrap();
    assert_eq!(c.source(), &bv("/store/shell/.bashrc"));
    assert_eq!(c.target(), &bv("/home/u/.bashrc"));
    let l = db.get_configs(&bv("shell")).unwrap();
    assert_eq!(l.len(), 1);
    assert_eq!(l[0].source(), &bv("/store/shell/.bashrc"));
    assert_eq!(l[0].target(), &bv("/home/u/.bashrc"));
}

#[test]
fn register_file_without_filename_is_invalid_input() {
    let mut db = ConfigsDB::default();
    let r = register_file(&mut db, &bv("shell"), &bv("/"), &bv("/store"));
    assert!(matches!(r, Err(CoreError::InvalidInput)));
    assert!(db.get_configs(&bv("shell")).is_none());
}

#[test]
fn directory_ingestion_registers_one_entry_per_file() {
    let mut db = ConfigsDB::default();
    let files = [
        "/cfg/init.vim",
        "/cfg/colors/dark.vim",
        "/cfg/colors/light.vim",
        "/cfg/plugs/deep/nested.vim",
    ];
    for f in files.iter() {
        register_file(&mut db, &bv("nvim"), &bv(f), &bv("/store")).unwrap();
    }
    let l = db.get_configs(&bv("nvim")).unwrap();
    assert_eq!(l.len(), 4);
    assert_eq!(l[0].source(), &bv("/store/nvim/init.vim"));
    assert_eq!(l[1].source(), &bv("/store/nvim/dark.vim"));
    assert_eq!(l[2].source(), &bv("/store/nvim/light.vim"));
    assert_eq!(l[3].source(), &bv("/store/nvim/nested.vim"));
    assert_eq!(l[3].target(), &bv("/cfg/plugs/deep/nested.vim"));
}

#[test]
fn failed_registration_keeps_earlier_entries_persisted() {
    let mut db = ConfigsDB::default();
    register_file(&mut db, &bv("nvim"), &bv("/cfg/a.vim"), &bv("/store")).unwrap();
    let persisted_after_first = db.to_json();
    register_file(&mut db, &bv("nvim"), &bv("/cfg/b.vim"), &bv("/store")).unwrap();
    let persisted_after_second = db.to_json();
    let r = register_file(&mut db, &bv("nvim"), &bv("/cfg/.."), &bv("/store"));
    assert!(matches!(r, Err(CoreError::InvalidInput)));
    assert_eq!(db.to_json(), persisted_after_second);
    let recovered = ConfigsDB::from_json(&persisted_after_second).unwrap();
    let l = recovered.get_configs(&bv("nvim")).unwrap();
    assert_eq!(l.len(), 2);
    assert_eq!(l[0].target(), &bv("/cfg/a.vim"));
    assert_eq!(l[1].target(), &bv("/cfg/b.vim"));
    let earlier = ConfigsDB::from_json(&persisted_after_first).unwrap();
    assert_eq!(earlier.get_configs(&bv("nvim")).unwrap().len(), 1);
}

#[test]
fn initialize_without_persisted_file_is_empty_default() {
    let db = initialize(None).unwrap();
    assert_eq!(db.version(), 0);
    assert!(db.get_all_configs().is_empty());
}

#[test]
fn initialize_loads_persisted_document() {
    let mut db = ConfigsDB::default();
    db.add_config(bv("a"), bv("/s/a/x"), bv("/t/x"));
    let loaded = initialize(Some(db.to_json())).unwrap();
    assert_eq!(loaded.get_configs(&bv("a")).unwrap().len(), 1);
}

#[test]
fn initialize_rejects_corrupt_document() {
    let r = initialize(Some(bv("{\"version\": }")));
    assert!(matches!(r, Err(CoreError::ParseError)));
}

#[test]
fn repeated_registration_is_a_no_op() {
    let mut db = ConfigsDB::default();
    register_file(&mut db, &bv("shell"), &bv("/home/u/.bashrc"), &bv("/store")).unwrap();
    let once = db.to_json();
    register_file(&mut db, &bv("shell"), &bv("/home/u/.bashrc"), &bv("/store")).unwrap();
    assert_eq!(db.to_json(), once);
    assert_eq!(db.get_configs(&bv("shell")).unwrap().len(), 1);
}
