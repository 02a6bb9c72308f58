use httpx::dispatch::{keep_reading, plan_connection, ConnPlan};
use httpx::method::Method;
use httpx::pool::{default_pool_size, PoolModel};
use httpx::response::{HttpResponse, HttpStateCode};
use httpx::router::Router;

#[test]
fn response_round_trip_is_byte_exact() {
    let mut resp = HttpResponse::new();
    resp.set_http_state_code(HttpStateCode::StatusOK);
    resp.insert_header("Content-Type", "text/html");
    resp.write_str("hi");
    assert_eq!(
        resp.to_http_string(),
        "HTTP/1.1 200 OK\r\nContent-Type: text/html\r\n\r\nhi".to_string()
    );
}

#[test]
fn response_not_found_line_and_header_order() {
    let mut resp = HttpResponse::new();
    resp.set_http_state_code(HttpStateCode::StatusNotFound);
    resp.insert_header("A", "1");
    resp.insert_header("B", "2");
    resp.insert_header("A", "3");
    assert_eq!(
        resp.to_http_string(),
        "HTTP/1.1 404 NOT FOUND\r\nA: 3\r\nB: 2\r\n\r\n".to_string()
    );
}

#[test]
fn response_body_appends() {
    let mut resp = HttpResponse::new();
    resp.write_str("hello ");
    resp.write_str("world");
    assert_eq!(resp.to_http_string(), "HTTP/1.1 200 OK\r\n\r\nhello world".to_string());
}

#[test]
fn duplicated_response_is_independent() {
    let mut template = HttpResponse::new();
    template.insert_header("Server", "httpx");
    let mut copy = template.duplicate();
    copy.insert_header("Extra", "yes");
    copy.write_str("x");
    assert_eq!(
        template.to_http_string(),
        "HTTP/1.1 200 OK\r\nServer: httpx\r\n\r\n".to_string()
    );
    assert_eq!(
        copy.to_http_string(),
        "HTTP/1.1 200 OK\r\nServer: httpx\r\nExtra: yes\r\n\r\nx".to_string()
    );
}

#[test]
fn pool_runs_all_jobs_once_then_retires_every_worker() {
    let mut pool: PoolModel<i32> = PoolModel::new(2);
    for j in 0..5 {
        pool.execute(j);
    }
    pool.shutdown();
    pool.run_all();
    assert_eq!(pool.executed, vec![0, 1, 2, 3, 4]);
    assert_eq!(pool.active, 0);
    assert!(pool.queue.is_empty());
}

#[test]
fn pool_jobs_before_shutdown_all_run() {
    let mut pool: PoolModel<i32> = PoolModel::new(4);
    pool.execute(10);
    pool.shutdown();
    pool.run_all();
    assert_eq!(pool.executed, vec![10]);
    assert_eq!(pool.active, 0);

    let mut empty_pool: PoolModel<i32> = PoolModel::new(1);
    empty_pool.shutdown();
    empty_pool.run_all();
    assert!(empty_pool.executed.is_empty());
    assert_eq!(empty_pool.active, 0);
}

#[test]
fn default_pool_size_exceeds_cpu_count() {
    // The size comes from the machine's CPU count plus one; if the wrapper
    // handed anything below one back, this would fail.
    assert!(default_pool_size() >= 2);
}

#[test]
fn keep_reading_only_on_full_buffer() {
    assert!(keep_reading(1024, 1024));
    assert!(!keep_reading(0, 1024));
    assert!(!keep_reading(1023, 1024));
}

#[test]
fn plan_matched_route_invokes_handler_with_ok_response() {
    let mut router: Router<u32> = Router::new();
    router.get("/hi", 7).unwrap();
    let mut template = HttpResponse::new();
    template.insert_header("Server", "httpx");
    let plan = plan_connection(
        &router,
        "GET /hi HTTP/1.1\r\n\r\n".to_string(),
        "10.0.0.1:5000",
        &template,
    );
    match plan {
        ConnPlan::Invoke(h, req, resp) => {
            assert_eq!(h, 7);
            assert_eq!(req.get_uri(), "/hi");
            assert_eq!(req.get_method(), Method::GET);
            assert_eq!(req.get_remote_addr(), "10.0.0.1:5000".to_string());
            assert_eq!(
                resp.to_http_string(),
                "HTTP/1.1 200 OK\r\nServer: httpx\r\n\r\n".to_string()
            );
        }
        _ => panic!("expected a matched route"),
    }
}

#[test]
fn plan_unmatched_route_answers_not_found() {
    let router: Router<u32> = Router::new();
    let template = HttpResponse::new();
    let plan = plan_connection(
        &router,
        "GET /missing HTTP/1.1\r\n\r\n".to_string(),
        "10.0.0.1:5000",
        &template,
    );
    match plan {
        ConnPlan::Respond(resp) => {
            assert_eq!(resp.to_http_string(), "HTTP/1.1 404 NOT FOUND\r\n\r\n".to_string());
        }
        _ => panic!("expected an explicit not-found answer"),
    }
}

#[test]
fn plan_parse_failure_aborts_without_response() {
    let router: Router<u32> = Router::new();
    let template = HttpResponse::new();
    let plan = plan_connection(
        &router,
        "GET HTTP/1.1\r\nonly two tokens".to_string(),
        "10.0.0.1:5000",
        &template,
    );
    assert!(matches!(plan, ConnPlan::Abort(_)));
}
