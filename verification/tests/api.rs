use x_notify_service::api::{NotifyError, NotifyRequest, APP_ID, BODY_MAX, TITLE_MAX};
use x_notify_service::config::{resolve, Cli, Command, FileConfig, DEFAULT_PORT};
use x_notify_service::server::{accept_notify, candidate_ports, check_body_size, route, HttpMethod, Route, MAX_BODY};
use x_notify_service::single::port_file_content;

fn req(title: &str, body: Option<String>) -> NotifyRequest {
    NotifyRequest { title: title.to_string(), body }
}

#[test]
fn validate_rules() {
    assert!(req("工单提醒", None).validate().is_ok());
    assert!(matches!(req("   ", None).validate(), Err(NotifyError::EmptyTitle)));
    assert!(matches!(req("", None).validate(), Err(NotifyError::EmptyTitle)));
    assert!(req(&"字".repeat(TITLE_MAX), None).validate().is_ok());
    assert!(req(&format!("  {}  ", "字".repeat(TITLE_MAX)), None).validate().is_ok());
    assert!(matches!(req(&"字".repeat(TITLE_MAX + 1), None).validate(), Err(NotifyError::TitleTooLong)));
    assert!(req("t", Some("字".repeat(BODY_MAX))).validate().is_ok());
    assert!(matches!(req("t", Some("字".repeat(BODY_MAX + 1))).validate(), Err(NotifyError::BodyTooLong)));
    // an empty title is reported before an over-long body
    assert!(matches!(req(" ", Some("x".repeat(BODY_MAX + 1))).validate(), Err(NotifyError::EmptyTitle)));
}

#[test]
fn error_status_and_messages() {
    assert_eq!(NotifyError::BadJson("x".into()).status(), 400);
    assert_eq!(NotifyError::EmptyTitle.status(), 422);
    assert_eq!(NotifyError::TitleTooLong.status(), 422);
    assert_eq!(NotifyError::BodyTooLong.status(), 422);
    assert_eq!(NotifyError::BadJson("eof".into()).message(), "JSON 解析失败: eof");
    assert_eq!(NotifyError::EmptyTitle.message(), "title 不能为空");
    assert_eq!(NotifyError::TitleTooLong.message(), "title 过长(最多 200 字符)");
    assert_eq!(NotifyError::BodyTooLong.message(), "body 过长(最多 2000 字符)");
    assert_eq!(APP_ID, "x-notify-service");
}

fn cli() -> Cli {
    Cli {
        url_arg: None,
        port: None,
        config: None,
        log_level: None,
        log_dir: None,
        no_popup: false,
        app_id: None,
        cmd: None,
    }
}

fn empty_file() -> FileConfig {
    FileConfig { port: None, log_level: None, log_dir: None, no_popup: None, app_id: None }
}

#[test]
fn resolve_uses_defaults() {
    let cfg = resolve(&cli(), empty_file(), "/logs".to_string());
    assert_eq!(cfg.port, DEFAULT_PORT);
    assert_eq!(cfg.port, 17320);
    assert_eq!(cfg.log_level, "info");
    assert_eq!(cfg.log_dir, "/logs");
    assert!(!cfg.no_popup);
    assert_eq!(cfg.app_id, None);
}

#[test]
fn resolve_prefers_cli_then_file() {
    let file = FileConfig {
        port: Some(18000),
        log_level: Some("debug".into()),
        log_dir: Some("/file".into()),
        no_popup: Some(true),
        app_id: Some("file.app".into()),
    };
    let cfg = resolve(&cli(), file, "/logs".to_string());
    assert_eq!(cfg.port, 18000);
    assert_eq!(cfg.log_level, "debug");
    assert_eq!(cfg.log_dir, "/file");
    assert!(cfg.no_popup);
    assert_eq!(cfg.app_id.as_deref(), Some("file.app"));

    let mut c = cli();
    c.port = Some(19000);
    c.log_level = Some("warn".into());
    c.log_dir = Some("/cli".into());
    c.app_id = Some("cli.app".into());
    c.cmd = Some(Command::Install);
    let file = FileConfig {
        port: Some(18000),
        log_level: Some("debug".into()),
        log_dir: Some("/file".into()),
        no_popup: Some(false),
        app_id: Some("file.app".into()),
    };
    let cfg = resolve(&c, file, "/logs".to_string());
    assert_eq!(cfg.port, 19000);
    assert_eq!(cfg.log_level, "warn");
    assert_eq!(cfg.log_dir, "/cli");
    assert!(!cfg.no_popup);
    assert_eq!(cfg.app_id.as_deref(), Some("cli.app"));
    c.no_popup = true;
    assert!(resolve(&c, empty_file(), String::new()).no_popup);
}

#[test]
fn routes() {
    assert_eq!(route(HttpMethod::Get, "/health"), Route::Health);
    assert_eq!(route(HttpMethod::Get, "/health?x=1"), Route::Health);
    assert_eq!(route(HttpMethod::Post, "/notify"), Route::Notify);
    assert_eq!(route(HttpMethod::Post, "/close"), Route::Close);
    assert_eq!(route(HttpMethod::Options, "/anything"), Route::Preflight);
    assert_eq!(route(HttpMethod::Post, "/health"), Route::NotFound);
    assert_eq!(route(HttpMethod::Get, "/notify"), Route::NotFound);
    assert_eq!(route(HttpMethod::Other, "/close"), Route::NotFound);
    assert_eq!(route(HttpMethod::Get, "/healthz"), Route::NotFound);
}

#[test]
fn ports_and_body_size() {
    assert_eq!(candidate_ports(17320), (17320..17330).collect::<Vec<u16>>());
    assert_eq!(candidate_ports(65530), (65530..65535).collect::<Vec<u16>>());
    assert!(candidate_ports(65535).is_empty());
    assert!(check_body_size(MAX_BODY).is_ok());
    match check_body_size(MAX_BODY + 1) {
        Err(NotifyError::BadJson(m)) => assert_eq!(m, "请求体过大"),
        _ => panic!("oversized body accepted"),
    }
}

#[test]
fn port_file() {
    assert_eq!(port_file_content(17320, 4242), "{\"port\":17320,\"pid\":4242}\n");
    assert_eq!(port_file_content(0, 0), "{\"port\":0,\"pid\":0}\n");
}

#[test]
fn notify_body_is_checked_in_order() {
    let ok = || Ok(req("t", None));
    match accept_notify(false, 10, ok()) {
        Err(NotifyError::BadJson(m)) => assert_eq!(m, "请求体不是有效的 UTF-8 文本"),
        _ => panic!("utf-8"),
    }
    match accept_notify(true, MAX_BODY + 1, ok()) {
        Err(NotifyError::BadJson(m)) => assert_eq!(m, "请求体过大"),
        _ => panic!("size"),
    }
    match accept_notify(true, MAX_BODY, Err("EOF".to_string())) {
        Err(NotifyError::BadJson(m)) => assert_eq!(m, "EOF"),
        _ => panic!("json"),
    }
    assert!(matches!(accept_notify(true, 3, Ok(req(" ", None))), Err(NotifyError::EmptyTitle)));
    let Ok(r) = accept_notify(true, 3, Ok(req("标题", Some("b".into())))) else {
        panic!("accepted");
    };
    assert_eq!(r.title, "标题");
    assert_eq!(r.body.as_deref(), Some("b"));
}
