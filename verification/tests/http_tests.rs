use wirt::http::{get_conlen, headboi, split_path};
use wirt::reader::{HttpReader, Step};
use wirt::response::response_head;
use wirt::route::{route_request, Route};

const REQ: &[u8] = b"GET / HTTP/1.1\r\nHost: x\r\nContent-Length: 5\r\n\r\nhello";

#[test]
fn path_splits_at_slashes() {
    assert_eq!(split_path(b"/blog/post/"), vec![b"blog".to_vec(), b"post".to_vec()]);
    assert_eq!(split_path(b"//a//b"), vec![b"a".to_vec(), b"b".to_vec()]);
    assert_eq!(split_path(b""), Vec::<Vec<u8>>::new());
    assert_eq!(split_path(b"/"), Vec::<Vec<u8>>::new());
}

#[test]
fn header_spans_and_length() {
    let h = headboi(REQ, 42);
    assert_eq!(h, vec![(16, 20, 22, 23), (25, 39, 41, 42)]);
    assert_eq!(get_conlen(REQ, &h), Some(5));
    let no_length = b"GET / HTTP/1.1\r\nHost: x\r\n\r\n";
    let h2 = headboi(no_length, 23);
    assert_eq!(h2, vec![(16, 20, 22, 23)]);
    assert_eq!(get_conlen(no_length, &h2), Some(0));
}

#[test]
fn length_that_does_not_fit_fails() {
    let v = b"GET / HTTP/1.1\r\nContent-Length: 99999999999999999999999\r\n\r\n";
    let h = headboi(v, 55);
    assert_eq!(get_conlen(v, &h), None);
}

#[test]
fn whole_request_in_one_read() {
    let mut r = HttpReader::new();
    match r.push(REQ) {
        Step::Ready(req) => {
            assert_eq!(req.v, REQ.to_vec());
            assert_eq!(req.imd, (0, 3));
            assert_eq!(req.ipt, (4, 5));
            assert_eq!(req.icont, 46);
        }
        other => panic!("expected a request, got {:?}", other),
    }
}

#[test]
fn request_over_several_reads() {
    let mut r = HttpReader::new();
    assert_eq!(r.push(&REQ[0..16]), Step::Pending);
    assert_eq!(r.push(&REQ[16..43]), Step::Pending);
    assert_eq!(r.push(&REQ[43..48]), Step::Pending);
    match r.push(&REQ[48..]) {
        Step::Ready(req) => {
            assert_eq!(req.v, REQ.to_vec());
            assert_eq!(req.icont, 46);
        }
        other => panic!("expected a request, got {:?}", other),
    }
}

#[test]
fn short_first_read_is_a_fault() {
    let mut r = HttpReader::new();
    assert_eq!(r.push(b"GE"), Step::Fault);
}

#[test]
fn request_line_without_spaces_is_a_fault() {
    let mut r = HttpReader::new();
    assert_eq!(r.push(b"GET\r\n\r\n"), Step::Fault);
}

#[test]
fn routes() {
    assert_eq!(route_request(b"GET", b"/"), Route::Index);
    assert_eq!(route_request(b"GET", b"/feed"), Route::Feed);
    assert_eq!(route_request(b"GET", b"/math/"), Route::Math);
    assert_eq!(route_request(b"GET", b"/blog/hello"), Route::Blog(b"hello".to_vec()));
    assert_eq!(route_request(b"POST", b"/blog/hello"), Route::Post(b"hello".to_vec()));
    assert_eq!(route_request(b"GET", b"/blog"), Route::Index);
    assert_eq!(route_request(b"GET", b"/edit/x"), Route::Edit(b"x".to_vec()));
    assert_eq!(route_request(b"GET", b"/edit"), Route::Index);
    assert_eq!(route_request(b"GET", b"/style.css"), Route::Style);
    assert_eq!(route_request(b"GET", b"/favicon.ico"), Route::Favicon);
    assert_eq!(route_request(b"GET", b"/elsewhere"), Route::Index);
}

#[test]
fn response_heads() {
    assert_eq!(
        response_head(b"text/html", 12),
        b"HTTP/1.1 200 OK\r\nContent-Type: text/html\r\nContent-Length: 12\r\n\r\n".to_vec()
    );
    assert_eq!(
        response_head(b"text/css", 0),
        b"HTTP/1.1 200 OK\r\nContent-Type: text/css\r\nContent-Length: \r\n\r\n".to_vec()
    );
}

#[test]
fn response_length_reads_back() {
    for len in [0usize, 7, 12, 4096] {
        let v = response_head(b"text/html", len);
        let h = headboi(&v, v.len() - 4);
        assert_eq!(get_conlen(&v, &h), Some(len));
    }
}

fn run(chunks: &[&[u8]]) -> Option<wirt::reader::Httpboi> {
    let mut r = HttpReader::new();
    for c in chunks {
        match r.push(c) {
            Step::Pending => {}
            Step::Ready(req) => return Some(req),
            Step::Fault => panic!("fault"),
        }
    }
    None
}

#[test]
fn any_split_gives_the_same_request() {
    let mut bytes = REQ.to_vec();
    bytes.extend_from_slice(b"GET /next HTTP/1.1\r\n");
    for a in 3..bytes.len() {
        for b in a..bytes.len() {
            let req = run(&[&bytes[..a], &bytes[a..b], &bytes[b..]]).unwrap();
            assert_eq!(req.v, REQ.to_vec());
            assert_eq!(req.imd, (0, 3));
            assert_eq!(req.ipt, (4, 5));
            assert_eq!(req.icont, 46);
        }
    }
}

#[test]
fn joined_segments_split_back() {
    let segs = vec![b"blog".to_vec(), b"a.b".to_vec(), b"x".to_vec()];
    assert_eq!(split_path(b"/blog/a.b/x"), segs);
    assert_eq!(split_path(b"//blog///a.b/x//"), segs);
    assert_eq!(split_path(b"/"), Vec::<Vec<u8>>::new());
}
