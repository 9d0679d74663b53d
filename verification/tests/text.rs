use means::endpoint::{ServiceTcpListener, ServiceTcpStream};
use means::response::{Response, ResponseResult, Status};

#[test]
fn listener_address_joins_host_and_port() {
    let listener = ServiceTcpListener { host: String::from("127.0.0.1"), port: String::from("8080") };
    assert_eq!(listener.address(), "127.0.0.1:8080");
}

#[test]
fn stream_address_joins_host_and_port() {
    let stream = ServiceTcpStream { host: String::from("localhost"), port: String::from("9") };
    assert_eq!(stream.address(), "localhost:9");
    let bare = ServiceTcpStream { host: String::new(), port: String::new() };
    assert_eq!(bare.address(), ":");
}

fn status(code: u8) -> Status {
    Status { version: String::from("HTTP/1.1"), code, reason: String::from("OK") }
}

#[test]
fn status_line_has_the_code_in_decimal() {
    assert_eq!(status(200).into_string(), "HTTP/1.1 200 OK");
    assert_eq!(status(0).into_string(), "HTTP/1.1 0 OK");
    assert_eq!(status(7).into_string(), "HTTP/1.1 7 OK");
    assert_eq!(status(10).into_string(), "HTTP/1.1 10 OK");
    assert_eq!(status(99).into_string(), "HTTP/1.1 99 OK");
    assert_eq!(status(100).into_string(), "HTTP/1.1 100 OK");
    assert_eq!(status(105).into_string(), "HTTP/1.1 105 OK");
    assert_eq!(status(255).into_string(), "HTTP/1.1 255 OK");
}

#[test]
fn status_line_agrees_with_std_for_every_code() {
    for code in 0..=255u8 {
        assert_eq!(status(code).into_string(), format!("HTTP/1.1 {} OK", code));
    }
}

#[test]
fn response_text_has_an_empty_line_before_the_body() {
    let response = Response { status: status(200), body: String::from("hello") };
    assert_eq!(response.clone().into_string(), "HTTP/1.1 200 OK\n\nhello");
    assert_eq!(response.into_bytes(), b"HTTP/1.1 200 OK\n\nhello".to_vec());
}

#[test]
fn response_bytes_are_utf8() {
    let response = Response { status: status(204), body: String::from("é€") };
    assert_eq!(response.into_bytes(), "HTTP/1.1 204 OK\n\né€".as_bytes().to_vec());
}

#[test]
fn reply_bytes_are_the_bytes_of_its_text() {
    let answer = ResponseResult::Prime(String::from("{\"method\":\"isPrime\",\"prime\":true}\n"));
    assert_eq!(answer.as_bytes(), b"{\"method\":\"isPrime\",\"prime\":true}\n".to_vec());
    let refusal = ResponseResult::Malformed(String::from("Failed to parse tcp buffer into string"));
    assert_eq!(refusal.as_bytes(), b"Failed to parse tcp buffer into string".to_vec());
    assert_eq!(ResponseResult::Prime(String::new()).as_bytes(), Vec::<u8>::new());
}
