use adashi::server::AdashiMcpServer;

#[test]
fn a_server_remembers_where_its_settings_live() {
    let server = AdashiMcpServer::new("/home/me/.adashi/settings.json".to_string());
    assert_eq!(server.settings_path(), "/home/me/.adashi/settings.json");
}
