use hen::errors::IntoStub;
use hen::tokenizer::{Token, TokenStream};

fn start(s: &str) -> Token {
    Token::Start(s.to_string())
}

fn stop(s: &str) -> Token {
    Token::Stop(s.to_string())
}

fn key_value(k: &str, v: &str) -> Token {
    Token::KeyValue(k.to_string(), v.to_string())
}

#[test]
fn test_parse_single_token() {
    let s_start = ":start rng definition:";
    let t_start = Ok(Token::Start("rng definition".to_string()));
    assert_eq!(Token::parse(s_start).into_stub(), t_start);

    let s_stop = ":stop rng definition:";
    let t_stop = Ok(Token::Stop("rng definition".to_string()));
    assert_eq!(Token::parse(s_stop).into_stub(), t_stop);

    let s1 = "initial seeds  =  20 1";
    let t1 = Ok(Token::KeyValue(
        "initial seeds".to_string(),
        "20 1".to_string(),
    ));
    assert_eq!(Token::parse(s1).into_stub(), t1);

    let s2 = "type  =  ranmar";
    let t2 = Ok(Token::KeyValue("type".to_string(), "ranmar".to_string()));
    assert_eq!(Token::parse(s2).into_stub(), t2);

    let s_garbage = "garbage";
    let t_garbage = Err("Cannot parse garbage".to_string());
    assert_eq!(Token::parse(s_garbage).into_stub(), t_garbage);
}

#[test]
fn test_parse_tokenstream() {
    let s = "
:start source definition:
    :start source:
        library = egs_collimated_source
        name = the_source
        :start source shape:
            type = point
            position = 0 0 -110
        :stop source shape:
        :start target shape:
            library   = egs_rectangle # some comment
            rectangle = -2 -2 \\
 2 2
        :stop target shape:
        distance = 110

        # co
        # mmen

        charge = 0
        :start spectrum:
             type = monoenergetic
\tenergy = 13.75
        :stop spectrum:
    :stop source:

    simulation source = the_source

:stop source definition:
    ";
    let result = TokenStream::parse_string(&s);
    let tokens = [
        start("source definition"),
        start("source"),
        key_value("library", "egs_collimated_source"),
        key_value("name", "the_source"),
        start("source shape"),
        key_value("type", "point"),
        key_value("position", "0 0 -110"),
        stop("source shape"),
        start("target shape"),
        key_value("library", "egs_rectangle"),
        key_value("rectangle", "-2 -2 2 2"),
        stop("target shape"),
        key_value("distance", "110"),
        key_value("charge", "0"),
        start("spectrum"),
        key_value("type", "monoenergetic"),
        key_value("energy", "13.75"),
        stop("spectrum"),
        stop("source"),
        key_value("simulation source", "the_source"),
        stop("source definition"),
    ]
    .to_vec();
    let stream = TokenStream { tokens };
    assert_eq!(result.unwrap(), stream);
    assert_eq!(
        TokenStream::parse_string(&stream.to_string()).unwrap(),
        stream
    );
}

#[test]
fn test_render_round_trip_nested() {
    // rendering then re-parsing keeps the tokens, whatever the original
    // whitespace, comments and continuations looked like
    let s = "a = 1 # note\n:start block:\n   x=  y \\\nz:\n:stop block:\n";
    let first = TokenStream::parse_string(s).unwrap();
    let rendered = first.to_string();
    let second = TokenStream::parse_string(&rendered).unwrap();
    assert_eq!(first, second);
    // and rendering is a fixed point from the second pass on
    assert_eq!(second.to_string(), rendered);
}

#[test]
fn test_render_indentation() {
    let s = ":start a:\nk = v\n:start b:\nkk = vv\n:stop b:\n:stop a:";
    let stream = TokenStream::parse_string(s).unwrap();
    let expected = ":start a:\n    k = v\n    :start b:\n        kk = vv\n    :stop b:\n:stop a:";
    assert_eq!(stream.to_string(), expected);
}

#[test]
fn test_parse_dangling_continuation() {
    let r = TokenStream::parse_string("a = b \\\n   \n");
    assert_eq!(r, Err("End of file".to_string()));
}

#[test]
fn test_get_ncase() {
    let stream = TokenStream::parse_string("ncase = 1000\ninitial seeds = 1 2").unwrap();
    assert_eq!(stream.get_ncase(), Ok(1000));

    let missing = TokenStream::parse_string("type = ranmar").unwrap();
    assert_eq!(missing.get_ncase(), Err("Cannot find ncase".to_string()));

    let twice = TokenStream::parse_string("ncase = 1\nncase = 2").unwrap();
    assert_eq!(twice.get_ncase(), Err("Ambiguous key ncase".to_string()));

    let bad = TokenStream::parse_string("ncase = lots").unwrap();
    assert_eq!(
        bad.get_ncase(),
        Err("Cannot parse ncase from lots".to_string())
    );
}

#[test]
fn test_split_rewrites_seed_and_ncase() {
    let stream = TokenStream::parse_string(":start rng:\nncase = 100\ninitial seeds = 1 2\n:stop rng:").unwrap();
    let seeds = vec![(7usize, 9usize), (7usize, 10usize)];
    let ncases = vec![50u64, 50u64];
    let parts = stream.split(&seeds, &ncases).unwrap();
    assert_eq!(parts.len(), 2);
    let p0 = parts[0].to_string();
    assert!(p0.contains("ncase = 50"));
    assert!(p0.contains("initial seeds = 7 9"));
    let p1 = parts[1].to_string();
    assert!(p1.contains("initial seeds = 7 10"));
}

#[test]
fn test_split_ambiguous_key_fails() {
    // two `ncase` entries: splitting must refuse, naming the ambiguity
    let stream =
        TokenStream::parse_string("ncase = 10\nncase = 20\ninitial seeds = 1 2").unwrap();
    let seeds = vec![(1usize, 2usize)];
    let ncases = vec![10u64];
    let r = stream.split(&seeds, &ncases);
    assert_eq!(r, Err("Ambiguous key ncase".to_string()));
}

#[test]
fn test_split_missing_seeds_fails() {
    let stream = TokenStream::parse_string("ncase = 10").unwrap();
    let r = stream.split(&vec![(1usize, 2usize)], &vec![10u64]);
    assert_eq!(r, Err("Cannot find initial seeds".to_string()));
}

#[test]
fn test_generate_ncases() {
    let stream = TokenStream::parse_string("ncase = 1000\ninitial seeds = 1 2").unwrap();
    assert_eq!(stream.generate_ncases(6), Ok(vec![166u64; 6]));
    assert_eq!(
        stream.generate_ncases(0),
        Err("Cannot split into zero parts".to_string())
    );
    assert_eq!(
        stream.generate_ncases(1001),
        Err("Cannot split: fewer cases than parts".to_string())
    );
}

#[test]
fn test_generate_seeds() {
    let stream = TokenStream::parse_string("ncase = 1000").unwrap();
    let seeds = stream.generate_seeds(3).unwrap();
    assert_eq!(seeds, vec![(42, 1), (42, 2), (42, 3)]);
}

#[test]
fn test_get_ncase_boundaries() {
    let max = TokenStream::parse_string("ncase = 18446744073709551615").unwrap();
    assert_eq!(max.get_ncase(), Ok(u64::MAX));

    let over = TokenStream::parse_string("ncase = 18446744073709551616").unwrap();
    assert_eq!(
        over.get_ncase(),
        Err("Cannot parse ncase from 18446744073709551616".to_string())
    );

    let plus = TokenStream::parse_string("ncase = +7").unwrap();
    assert_eq!(plus.get_ncase(), Ok(7));
}
