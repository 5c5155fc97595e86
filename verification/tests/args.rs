use isabelle_store::args::Args;

#[test]
fn default_args_match_the_advertised_defaults() {
    let a = Args::default();
    assert_eq!(a.data_path, "sample-data");
    assert_eq!(a.pub_url, "http://localhost:8081");
    assert_eq!(a.pub_fqdn, "localhost");
    assert_eq!(a.db_url, "mongodb://127.0.0.1:27017");
    assert_eq!(a.db_name, "isabelle");
    assert_eq!(a.bind_addr, "::");
    assert_eq!(a.bind_port, 0);
    assert!(a.plugin_dir.is_empty());
    assert!(!a.first_run);
    assert!(!a.cookie_http_insecure);
}
