use ycm::ConfigsDB;

fn bv(s: &str) -> Vec<u8> {
    s.as_bytes().to_vec()
}

#[test]
fn empty_database_has_no_entries() {
    let db = ConfigsDB::default();
    assert_eq!(db.version(), 0);
    assert!(db.get_configs(&bv("nvim")).is_none());
    assert!(db.get_all_configs().is_empty());
}

#[test]
fn add_entry_registers_pair() {
    let mut db = ConfigsDB::default();
    db.add_config(bv("nvim"), bv("/store/nvim/init.vim"), bv("/home/u/.config/nvim/init.vim"));
    let entries = db.get_configs(&bv("nvim")).unwrap();
    assert_eq!(entries.len(), 1);
    assert_eq!(entries[0].source(), &bv("/store/nvim/init.vim"));
    assert_eq!(entries[0].target(), &bv("/home/u/.config/nvim/init.vim"));
}

#[test]
fn idempotent_registration() {
    let mut db = ConfigsDB::default();
    db.add_config(bv("nvim"), bv("/store/nvim/init.vim"), bv("/home/u/init.vim"));
    db.add_config(bv("nvim"), bv("/store/nvim/init.vim"), bv("/home/u/init.vim"));
    let entries = db.get_configs(&bv("nvim")).unwrap();
    assert_eq!(entries.len(), 1);
    assert_eq!(entries[0].source(), &bv("/store/nvim/init.vim"));
    assert_eq!(entries[0].target(), &bv("/home/u/init.vim"));
}

#[test]
fn distinct_pairs_under_one_name_both_kept() {
    let mut db = ConfigsDB::default();
    db.add_config(bv("nvim"), bv("/store/nvim/init.vim"), bv("/home/u/init.vim"));
    db.add_config(bv("nvim"), bv("/store/nvim/keys.vim"), bv("/home/u/keys.vim"));
    let entries = db.get_configs(&bv("nvim")).unwrap();
    assert_eq!(entries.len(), 2);
    assert_eq!(entries[0].source(), &bv("/store/nvim/init.vim"));
    assert_eq!(entries[1].source(), &bv("/store/nvim/keys.vim"));
}

#[test]
fn dedup_is_per_name_not_global() {
    let mut db = ConfigsDB::default();
    db.add_config(bv("a"), bv("/store/a/x"), bv("/home/u/x"));
    db.add_config(bv("b"), bv("/store/a/x"), bv("/home/u/x"));
    let la = db.get_configs(&bv("a")).unwrap();
    let lb = db.get_configs(&bv("b")).unwrap();
    assert_eq!(la.len(), 1);
    assert_eq!(lb.len(), 1);
    assert_eq!(db.get_all_configs().len(), 2);
}

#[test]
fn get_all_flattens_every_name() {
    let mut db = ConfigsDB::default();
    db.add_config(bv("a"), bv("/s/a/1"), bv("/t/1"));
    db.add_config(bv("a"), bv("/s/a/2"), bv("/t/2"));
    db.add_config(bv("b"), bv("/s/b/3"), bv("/t/3"));
    let all = db.get_all_configs();
    assert_eq!(all.len(), 3);
    assert_eq!(all[0].source(), &bv("/s/a/1"));
    assert_eq!(all[1].source(), &bv("/s/a/2"));
    assert_eq!(all[2].source(), &bv("/s/b/3"));
}

#[test]
fn unknown_name_is_absent_not_an_error() {
    let mut db = ConfigsDB::default();
    db.add_config(bv("a"), bv("/s/a/1"), bv("/t/1"));
    assert!(db.get_configs(&bv("zsh")).is_none());
}
