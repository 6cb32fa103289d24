use sdif::{canonicalize, parse_text, sdif_hash};
use sha2::{Digest, Sha256};

#[test]
fn canonical_orders_directives_fields_and_blocks() {
    let src = "@profile p\n@sdif 1.0\nzeta 1\nid x\nkind Agent\nrules:\n  (deny b)\n  (deny a)\nrel:\n  s2 p o\n  s1 p \"o 1\"\nobj:\n  b 2\n  a 1\n";
    let doc = parse_text(src).unwrap();
    let got = canonicalize(&doc);
    let expected = "@sdif 1.0\n@profile p\nkind Agent\nid x\nzeta 1\nobj:\n  a 1\n  b 2\nrel:\n  s1 p \"o 1\"\n  s2 p o\nrules:\n  (deny a)\n  (deny b)\n";
    assert_eq!(got, expected);
}

#[test]
fn canonical_quotes_what_needs_quoting() {
    let src = "@sdif 1.0\na \"hello world\"\nb \"plain\"\nc [x,y]\nd true\n";
    let got = canonicalize(&parse_text(src).unwrap());
    assert_eq!(got, "@sdif 1.0\na \"hello world\"\nb \"plain\"\nc [x,y]\nd true\n");
}

#[test]
fn canonical_tables_keep_quoted_columns() {
    let src = "@sdif 1.0\npeople[id,name]:\n  1\t\"Alice\"\n  2\tBob\n";
    let got = canonicalize(&parse_text(src).unwrap());
    assert_eq!(got, "@sdif 1.0\npeople[id,name]:\n  1\t\"Alice\"\n  2\t\"Bob\"\n");
}

#[test]
fn canonical_narratives_and_aliases() {
    let src = "@sdif.ai 1.0\nalias[k=kind]\nn \"\"\"\nline one\n  line two\n\"\"\"\n";
    let got = canonicalize(&parse_text(src).unwrap());
    assert_eq!(got, "@sdif.ai 1.0\nalias[k=kind]\nn \"\"\"\nline one\n  line two\n\"\"\"\n");
}

#[test]
fn canonical_is_stable_on_its_output() {
    let src = "@sdif 1.0\nzeta 1\nkind Agent\nobj:\n  b 2\n  a \"x y\"\nrel:\n  b p c\n  a p c\n";
    let once = canonicalize(&parse_text(src).unwrap());
    let twice = canonicalize(&parse_text(&once).unwrap());
    assert_eq!(once, twice);
}

#[test]
fn hash_is_sha256_of_canonical_form() {
    let doc = parse_text("@sdif 1.0\nkind Agent\n").unwrap();
    let canon = canonicalize(&doc);
    let digest = Sha256::digest(canon.as_bytes());
    let expected: String = digest.iter().map(|b| format!("{:02x}", b)).collect();
    let got = sdif_hash(&doc);
    assert_eq!(got, expected);
    assert_eq!(got.len(), 64);
    assert_ne!(got, canon);
}

#[test]
fn hash_of_empty_canonical_document() {
    // The canonical text of this document is "@sdif 1.0\n".
    let doc = parse_text("@sdif 1.0\n").unwrap();
    assert_eq!(canonicalize(&doc), "@sdif 1.0\n");
    let digest = Sha256::digest("@sdif 1.0\n".as_bytes());
    let expected: String = digest.iter().map(|b| format!("{:02x}", b)).collect();
    assert_eq!(sdif_hash(&doc), expected);
}

#[test]
fn reordering_statements_keeps_the_canonical_text() {
    let a = sdif::parse_text("@sdif 1.0\n@profile p\nid x\nkind Agent\nrel:\n  b p o\n  a p o\nobj:\n  k 1\nt[c]:\n  1\n").unwrap();
    let b = sdif::parse_text("@profile p\n@sdif 1.0\nrel:\n  a p o\nobj:\n  k 1\nkind Agent\nt[c]:\n  1\nrel:\n  b p o\nid x\n").unwrap();
    assert_eq!(sdif::canonicalize(&a), sdif::canonicalize(&b));
}

#[test]
fn quoted_values_survive_canonical_form() {
    let doc = sdif::parse_text("@sdif 1.0\nk \"a\\\"b\\\\c\\nd e\"\n").unwrap();
    let text = sdif::canonicalize(&doc);
    let again = sdif::parse_text(&text).unwrap();
    assert_eq!(doc.fields()[0].value, "a\"b\\c\nd e");
    assert_eq!(again.fields()[0].value, doc.fields()[0].value);
    assert_eq!(sdif::canonicalize(&again), text);
}
