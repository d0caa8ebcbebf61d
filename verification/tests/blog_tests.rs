use wirt::blog::{asciitohex, blog_blocks, decode_form, edit_form, parse_write, Block};

fn html(b: &Block) -> Vec<u8> {
    match b {
        Block::Html(h) => h.clone(),
        Block::Math(_) => panic!("expected html"),
    }
}

#[test]
fn hex_digits_give_their_values() {
    assert_eq!(asciitohex(b'0'), 0);
    assert_eq!(asciitohex(b'9'), 9);
    assert_eq!(asciitohex(b'A'), 10);
    assert_eq!(asciitohex(b'F'), 15);
    assert_eq!(asciitohex(b'a'), 10);
    assert_eq!(asciitohex(b'f'), 15);
}

#[test]
fn form_decoding_handles_escapes_plus_and_carriage_returns() {
    assert_eq!(decode_form(b"gerald=a+b%41%0D%0Ac"), b"a bA\nc".to_vec());
    assert_eq!(decode_form(b"gerald=50%25"), b"50%".to_vec());
    // An escape cut short stands for itself.
    assert_eq!(decode_form(b"gerald=x%4"), b"x%4".to_vec());
    assert_eq!(decode_form(b"gerald="), Vec::<u8>::new());
    assert_eq!(decode_form(b"short"), Vec::<u8>::new());
}

#[test]
fn paragraph_of_text_keeps_line_breaks() {
    assert_eq!(html(&parse_write(b"one\ntwo")), b"<p>one<br/>two</p>".to_vec());
    assert_eq!(html(&parse_write(b"a\n\nb\n")), b"<p>a<br/><br/>b<br/></p>".to_vec());
}

#[test]
fn link_paragraph() {
    assert_eq!(
        html(&parse_write(b"ln\nhttp://x.org\nthe label")),
        b"<p><a href=\"http://x.org\">\nthe label</a></p>".to_vec()
    );
    assert_eq!(
        html(&parse_write(b"ln\nhttp://x.org")),
        b"<p><a href=\"http://x.org\">http://x.org</a></p>".to_vec()
    );
}

#[test]
fn image_paragraph() {
    assert_eq!(
        html(&parse_write(b"im\npic.png\na cat")),
        b"<img src=\"pic.png\" alt=\"a cat\" title=\"a cat\"/>".to_vec()
    );
    assert_eq!(html(&parse_write(b"im\npic.png")), b"<img src=\"pic.png\"/>".to_vec());
}

#[test]
fn rule_and_formula_paragraphs() {
    assert_eq!(html(&parse_write(b"--")), b"<hr/>".to_vec());
    match parse_write(b"mt\n0 1 +") {
        Block::Math(m) => assert_eq!(m, b"0 1 +".to_vec()),
        Block::Html(_) => panic!("expected a formula"),
    }
}

#[test]
fn post_page_blocks() {
    let blocks = blog_blocks(b"hello", b"First line\nsecond\n\n\n--\n\nmt\n1 1 +");
    assert_eq!(blocks.len(), 4);
    assert_eq!(html(&blocks[0]), b"<p><a href=\"/edit/hello\">edit</a></p>".to_vec());
    assert_eq!(html(&blocks[1]), b"<p>First line<br/>second</p>".to_vec());
    assert_eq!(html(&blocks[2]), b"<hr/>".to_vec());
    match &blocks[3] {
        Block::Math(m) => assert_eq!(m, &b"1 1 +".to_vec()),
        Block::Html(_) => panic!("expected a formula"),
    }
}

#[test]
fn empty_post_has_only_the_edit_link() {
    let blocks = blog_blocks(b"x", b"  \n\n ");
    assert_eq!(blocks.len(), 1);
}

#[test]
fn edit_form_holds_the_source() {
    assert_eq!(
        edit_form(b"p", b"text"),
        b"<form action=\"/blog/p\" method=\"POST\"><textarea name=\"gerald\">text</textarea><input type=\"submit\"></form>".to_vec()
    );
}

#[test]
fn plain_form_text_decodes_to_itself() {
    assert_eq!(decode_form(b"gerald=just.text;ok"), b"just.text;ok".to_vec());
}

fn form_encode(s: &[u8], upper: bool) -> Vec<u8> {
    let mut out = Vec::new();
    for &c in s {
        if c == b' ' {
            out.push(b'+');
        } else if c.is_ascii_alphanumeric() {
            out.push(c);
        } else if upper {
            out.extend_from_slice(format!("%{:02X}", c).as_bytes());
        } else {
            out.extend_from_slice(format!("%{:02x}", c).as_bytes());
        }
    }
    out
}

#[test]
fn encoded_form_text_decodes_back_without_carriage_returns() {
    let text = b"Hello, world!\r\nLine 2 + 50% \xff\x00/~";
    let expected: Vec<u8> = text.iter().copied().filter(|&c| c != 13).collect();
    for upper in [true, false] {
        let mut data = b"gerald=".to_vec();
        data.extend_from_slice(&form_encode(text, upper));
        assert_eq!(decode_form(&data), expected);
    }
}
