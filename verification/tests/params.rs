use z157::params::Children;
use z157::params::Walk;
use z157::Params;

fn drain_walk<'p>(mut walk: Walk<'p>) -> Vec<&'p str> {
    let mut names = Vec::new();
    while let Some(param) = walk.next() {
        names.push(param.field_name());
    }
    names
}

fn drain_children<'p>(mut children: Children<'p>) -> Vec<&'p str> {
    let mut names = Vec::new();
    while let Some(param) = children.next() {
        names.push(param.field_name());
    }
    names
}

#[test]
fn params_parent() {
    let params: Params = Params::try_from("(a(b))".to_string()).unwrap();
    let b = params.index(&["a", "b"]).unwrap();
    let a = b.parent().unwrap();
    assert!(a.parent().is_none());
}

#[test]
fn params_walk_hands_out_every_parameter_once() {
    let params = Params::try_from("(a(b,c(d)),e)".to_string()).unwrap();
    assert!(!params.negation());
    assert_eq!(drain_walk(params.walk()), ["a", "b", "c", "d", "e"]);
    assert_eq!(drain_children(params.top()), ["a", "e"]);
    let mut walk = params.walk();
    for _ in 0..5 {
        assert!(walk.next().is_some());
    }
    assert!(walk.next().is_none());
    assert!(walk.next().is_none());
}

#[test]
fn param_children_walk_and_path() {
    let params = Params::try_from("-(a(b,c(d)),e)".to_string()).unwrap();
    assert!(params.negation());
    let a = params.index(&["a"]).unwrap();
    assert_eq!(a.field_name(), "a");
    assert_eq!(drain_children(a.children()), ["b", "c"]);
    assert_eq!(drain_walk(a.walk()), ["a", "b", "c", "d"]);
    let d = params.index(&["a", "c", "d"]).unwrap();
    assert_eq!(d.path(), ["a", "c", "d"]);
    assert_eq!(d.parent().unwrap().field_name(), "c");
    assert!(drain_children(d.children()).is_empty());
    assert!(params.index(&["a", "d"]).is_none());
}

#[test]
fn params_refuse_what_is_not_of_the_grammar() {
    let error = Params::try_from("(a,)".to_string()).err().unwrap();
    assert_eq!(
        error.to_string(),
        "failed to parse: expected a field name at offset 3"
    );
    assert!(Params::try_from(String::new()).is_err());
    assert!(Params::try_from("(a b)".to_string()).is_err());
}
