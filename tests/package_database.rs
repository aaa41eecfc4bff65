use fullsystemimage::package_database::{
    get_database_filename, DatabaseContents, DatabaseError, DatabaseFileDetails, Package,
};

fn details() -> DatabaseFileDetails {
    DatabaseFileDetails {
        xdg_dir_env_var: "XDG_DATA_HOME".to_string(),
        home_dir_env_var: "HOME".to_string(),
        default_xdg_dir: ".local/share".to_string(),
        package_database_file: "pkgs/db.toml".to_string(),
    }
}

#[test]
fn database_filename_prefers_xdg_dir() {
    let d = details();
    assert_eq!(
        get_database_filename(&d, Some("/x".to_string()), Some("/home/u".to_string())),
        Some("/x/pkgs/db.toml".to_string())
    );
    assert_eq!(
        get_database_filename(&d, None, Some("/home/u".to_string())),
        Some("/home/u/.local/share/pkgs/db.toml".to_string())
    );
    assert_eq!(get_database_filename(&d, None, None), None);
}

#[test]
fn add_entry_refuses_duplicate_names() {
    let mut db = DatabaseContents::new();
    let p = Package { name: "verus".to_string(), git_upstream_url: "https://example.org/v.git".to_string() };
    assert_eq!(db.add_entry(p.clone()), Ok(()));
    let q = Package { name: "other".to_string(), git_upstream_url: "u".to_string() };
    assert_eq!(db.add_entry(q), Ok(()));
    let again = Package { name: "verus".to_string(), git_upstream_url: "elsewhere".to_string() };
    assert_eq!(db.add_entry(again), Err(DatabaseError::PackageAlreadyExists));
    assert_eq!(db.packages().len(), 2);
    assert_eq!(db.packages()[0], p);
}
