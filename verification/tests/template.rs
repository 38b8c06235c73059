use termx::template::{NameResolver, Names, NextView, Resolution};

/// A client: the view it makes, if it makes one, and what it was handed.
struct Client {
    make: Option<usize>,
    got: Option<usize>,
}

fn client(make: Option<usize>) -> Client {
    Client { make, got: None }
}

/// Hands every client its view, making views where asked to.
fn run(mut r: Resolution, clients: &mut Vec<Client>) -> (Names, Vec<Option<usize>>) {
    for c in clients.iter_mut() {
        let got = match r.next().unwrap() {
            NextView::Make => {
                let e = c.make.unwrap();
                r.made_next(e);
                Some(e)
            },
            _ => r.give_next(),
        };
        c.got = got;
    }
    assert!(r.is_done());
    assert_eq!(r.next(), None);
    (r.names, r.given)
}

#[test]
fn registered_names_are_found() {
    let mut names = Names::new();
    assert_eq!(names.find("a"), None);
    assert!(!names.register("a", 3));
    assert_eq!(names.find("a"), Some(3));
    assert!(names.register("a", 4));
    assert_eq!(names.find("a"), Some(4));
    assert_eq!(names.find("b"), None);
}

#[test]
fn empty_names_ask_for_nothing() {
    let mut r: NameResolver<Client> = NameResolver::new();
    r.resolve(String::new(), client(None));
    assert_eq!(r.clients.len(), 0);
    r.resolve("x".to_string(), client(None));
    assert_eq!(r.clients.len(), 1);
    r.resolve_or_create(String::new(), client(Some(1)));
    assert_eq!(r.clients.len(), 1);
    r.resolve_or_create("y".to_string(), client(Some(1)));
    assert_eq!(r.clients.len(), 2);
    assert!(r.clients[1].1);
    assert!(!r.clients[0].1);
}

#[test]
fn finish_hands_each_client_its_view() {
    let mut r: NameResolver<Client> = NameResolver::new();
    r.names.register("a", 5);
    r.resolve_or_create("a".to_string(), client(Some(9)));
    r.resolve("c".to_string(), client(None));
    r.resolve_or_create("b".to_string(), client(Some(7)));
    r.resolve_or_create("b".to_string(), client(Some(8)));
    r.resolve_or_create("c".to_string(), client(Some(6)));
    r.resolve("d".to_string(), client(None));
    let (res, mut clients) = r.finish();
    assert_eq!(res.next(), Some(NextView::Give(5)));
    let (names, given) = run(res, &mut clients);
    assert_eq!(given, vec![Some(5), None, Some(7), Some(7), Some(6), None]);
    let got: Vec<Option<usize>> = clients.iter().map(|c| c.got).collect();
    assert_eq!(got, given);
    assert_eq!(names.find("a"), Some(5));
    assert_eq!(names.find("b"), Some(7));
    assert_eq!(names.find("c"), Some(6));
    assert_eq!(names.find("d"), None);
}
