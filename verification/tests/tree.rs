use std::borrow::Cow;
use z157::Field;
use z157::Tree;

fn names<'a>(fields: &[Field<'a>]) -> Vec<&'a str> {
    fields.iter().map(|field| field.name()).collect()
}

fn paths(fields: &[Field<'_>]) -> Vec<String> {
    fields.iter().map(|field| field.path().join(".")).collect()
}

#[test]
fn test_can_index() {
    let tree = Tree::parse("(a(b,c(d)),e)".into()).unwrap();
    assert!(!tree.negation());
    tree.index(&["a", "b"]).unwrap();
    tree.index(&["a", "c"]).unwrap();
    tree.index(&["a", "c", "d"]).unwrap();
    tree.index(&["e"]).unwrap();
    assert!(tree.index(&["a", "d"]).is_none());
}

#[test]
fn tree_parent() {
    let tree = Tree::parse("(a(b))".to_string().into()).unwrap();
    let b = tree.index(&["a", "b"]).unwrap();
    let a = b.parent().unwrap();
    assert!(a.parent().is_none());
}

#[test]
fn ego_tree_root_is_excluded_from_walk() {
    let tree = Tree::parse("(a)".to_string().into()).unwrap();
    let mut fields: Vec<_> = tree.walk().iter().map(|f| f.name()).collect();
    fields.sort_unstable();
    assert_eq!(fields, ["a"]);
}

#[test]
fn field_walk_works() {
    let tree = Tree::parse("(a(b(c)))".to_string().into()).unwrap();
    let a = tree.top().into_iter().next().unwrap();
    let mut all: Vec<_> = a.walk().iter().map(|f| f.name()).collect();
    all.sort_unstable();
    assert_eq!(all, ["a", "b", "c"]);
}

#[test]
fn children_works() {
    let tree = Tree::parse("(a(b,c))".to_string().into()).unwrap();
    let a = tree.top().into_iter().next().unwrap();
    let mut children: Vec<_> = a.children().iter().map(|f| f.name()).collect();
    children.sort_unstable();
    assert_eq!(children, ["b", "c"]);
}

#[test]
fn leaves_works() {
    let tree = Tree::parse("(a(b(c),d),e)".to_string().into()).unwrap();
    let mut leaves: Vec<_> = tree.leaves().iter().map(|f| f.name()).collect();
    leaves.sort_unstable();
    assert_eq!(leaves, ["c", "d", "e"]);
}

#[test]
fn walk_yields_every_field_before_its_children() {
    let tree = Tree::parse("(name,bio(height(meters,centimeters),age))".into()).unwrap();
    assert!(!tree.negation());
    assert_eq!(
        paths(&tree.walk()),
        [
            "name",
            "bio",
            "bio.height",
            "bio.height.meters",
            "bio.height.centimeters",
            "bio.age",
        ]
    );
    let height = tree.index(&["bio", "height"]).unwrap();
    assert_eq!(names(&height.children()), ["meters", "centimeters"]);
}

#[test]
fn negated_text_sets_the_flag() {
    let tree = Tree::parse("-(bio)".into()).unwrap();
    assert!(tree.negation());
    assert_eq!(names(&tree.top()), ["bio"]);
    let tree = Tree::parse("(bio)".into()).unwrap();
    assert!(!tree.negation());
    assert!(Tree::parse("-bio".into()).is_err());
    assert!(Tree::parse("-".into()).is_err());
    assert!(Tree::parse("!(bio)".into()).is_err());
}

#[test]
fn index_takes_the_first_child_of_each_name() {
    let tree = Tree::parse("(a(b,c(d)),e)".into()).unwrap();
    assert_eq!(tree.index(&["a", "c", "d"]).unwrap().name(), "d");
    assert!(tree.index(&["a", "d"]).is_none());
    assert!(tree.index(&["x"]).is_none());
    assert!(tree.index(&["a", "b", "x"]).is_none());
    assert!(tree.index(&[""]).is_none());
}

#[test]
fn index_of_the_empty_path_is_no_field() {
    let tree = Tree::parse("(a(b))".into()).unwrap();
    let empty: [&str; 0] = [];
    assert!(tree.index(&empty).is_none());
}

#[test]
fn leaves_are_the_fields_without_children() {
    let tree = Tree::parse("(parent_1(child_1,parent_2(child_2)),child_3)".into()).unwrap();
    assert_eq!(names(&tree.leaves()), ["child_1", "child_2", "child_3"]);
    for field in tree.walk() {
        let among = tree
            .leaves()
            .iter()
            .any(|leaf| leaf.path() == field.path());
        assert_eq!(among, !field.has_children(), "{}", field.name());
    }
}

#[test]
fn texts_outside_the_grammar_are_unparsable() {
    for text in ["", "(", "(a,)", ")", "()", "a", "(a", "(a))", "(a)(b)", "(a,,b)", "(,a)", "((a))", "(a()", "(a())"] {
        assert!(Tree::parse(text.into()).is_err(), "{text}");
    }
}

#[test]
fn parent_of_a_top_level_field_is_none() {
    let tree = Tree::parse("(a(b))".into()).unwrap();
    let b = tree.index(&["a", "b"]).unwrap();
    let a = b.parent().unwrap();
    assert_eq!(a.name(), "a");
    assert!(a.parent().is_none());
    for field in tree.top() {
        assert!(field.parent().is_none());
    }
}

#[test]
fn parent_lists_the_field_among_its_children() {
    let tree = Tree::parse("(a(b,c(d,e)),f(g))".into()).unwrap();
    for field in tree.walk() {
        match field.parent() {
            Some(parent) => {
                let siblings = parent.children();
                assert!(siblings.iter().any(|s| s.path() == field.path()));
            }
            None => {
                assert!(tree.top().iter().any(|s| s.path() == field.path()));
                assert_eq!(field.path().len(), 1);
            }
        }
    }
}

#[test]
fn index_of_a_path_finds_the_same_name() {
    let tree = Tree::parse("(a(b,c(d,e)),f(g),h)".into()).unwrap();
    for field in tree.walk() {
        let path = field.path();
        let found = tree.index(&path).unwrap();
        assert_eq!(found.name(), field.name());
        assert_eq!(found.path(), path);
    }
}

#[test]
fn index_with_repeated_names_takes_the_first() {
    let tree = Tree::parse("(a(b),a(c),a)".into()).unwrap();
    assert_eq!(names(&tree.top()), ["a", "a", "a"]);
    let first = tree.index(&["a"]).unwrap();
    assert_eq!(names(&first.children()), ["b"]);
    assert!(tree.index(&["a", "b"]).is_some());
    assert!(tree.index(&["a", "c"]).is_none());
    let c = tree.walk().into_iter().find(|f| f.name() == "c").unwrap();
    assert_eq!(c.path(), ["a", "c"]);
}

#[test]
fn children_and_top_keep_the_order_of_the_text() {
    let tree = Tree::parse("(z,y(c,b,a),x,y2(q,p))".into()).unwrap();
    assert_eq!(names(&tree.top()), ["z", "y", "x", "y2"]);
    let y = tree.index(&["y"]).unwrap();
    assert_eq!(names(&y.children()), ["c", "b", "a"]);
    let y2 = tree.index(&["y2"]).unwrap();
    assert_eq!(names(&y2.children()), ["q", "p"]);
    assert_eq!(
        names(&tree.walk()),
        ["z", "y", "c", "b", "a", "x", "y2", "q", "p"]
    );
}

#[test]
fn field_walk_starts_with_the_field_itself() {
    let tree = Tree::parse("(a(b(c,d),e),f)".into()).unwrap();
    let a = tree.index(&["a"]).unwrap();
    assert_eq!(names(&a.walk()), ["a", "b", "c", "d", "e"]);
    let f = tree.index(&["f"]).unwrap();
    assert_eq!(names(&f.walk()), ["f"]);
    assert!(a.has_children());
    assert!(!f.has_children());
    assert!(f.children().is_empty());
}

#[test]
fn path_runs_from_the_top_down() {
    let tree = Tree::parse("(a(b(c)))".into()).unwrap();
    let c = tree.index(&["a", "b", "c"]).unwrap();
    assert_eq!(c.path(), ["a", "b", "c"]);
    let a = tree.index(&["a"]).unwrap();
    assert_eq!(a.path(), ["a"]);
}

#[test]
fn unparsable_gives_the_buffer_back() {
    let owned = String::from("(a,)");
    let error = Tree::parse(Cow::Owned(owned)).err().unwrap();
    assert_eq!(error.buffer, "(a,)");
    assert!(matches!(error.buffer, Cow::Owned(_)));
    assert_eq!(
        error.to_string(),
        "failed to parse: expected a field name at offset 3"
    );
    assert_eq!(error.error().position(), 3);
    let reason = error.into_ref();
    assert_eq!(
        reason.to_string(),
        "failed to parse: expected a field name at offset 3"
    );

    let error = Tree::parse(Cow::Borrowed("(")).err().unwrap();
    assert!(matches!(error.buffer, Cow::Borrowed("(")));
}

#[test]
fn into_owned_and_free_keep_the_text() {
    let text = String::from("(a(b),c)");
    let tree = Tree::parse(Cow::Borrowed(text.as_str())).unwrap();
    let owned: Tree<'static> = tree.into_owned();
    drop(text);
    assert_eq!(names(&owned.walk()), ["a", "b", "c"]);
    let buffer = owned.free();
    assert!(matches!(buffer, Cow::Owned(_)));
    assert_eq!(buffer, "(a(b),c)");
}

#[test]
fn detached_tree_can_be_attached_again() {
    let tree = Tree::parse("-(a(b),c)".into()).unwrap();
    let (buffer, detached) = tree.detach();
    assert!(detached.negation());
    assert_eq!(names(&detached.walk(&buffer)), ["a", "b", "c"]);
    assert_eq!(names(&detached.top(&buffer)), ["a", "c"]);
    assert_eq!(names(&detached.leaves(&buffer)), ["b", "c"]);
    assert_eq!(detached.index(&buffer, &["a", "b"]).unwrap().name(), "b");

    let other = String::from("-(x(y),z)");
    let tree = detached.attach(Cow::Owned(other));
    assert!(tree.negation());
    assert_eq!(names(&tree.walk()), ["x", "y", "z"]);
}

#[test]
fn parse_detached_builds_the_same_tree() {
    let text = "(a(b,c),d)";
    let detached = Tree::parse_detached(text).unwrap();
    assert!(!detached.negation());
    assert_eq!(names(&detached.walk(text)), ["a", "b", "c", "d"]);
    let error = Tree::parse_detached("(a").err().unwrap();
    assert_eq!(error.buffer, "(a");
}

#[test]
fn clone_keeps_the_tree() {
    let tree = Tree::parse("(a(b),c)".into()).unwrap();
    let copy = tree.clone();
    drop(tree);
    assert_eq!(names(&copy.walk()), ["a", "b", "c"]);
    assert_eq!(copy.index(&["a", "b"]).unwrap().path(), ["a", "b"]);
}

#[test]
fn deep_text_costs_no_call_stack_in_the_tree() {
    let depth = 300;
    let mut text = String::from("(");
    for _ in 0..depth {
        text.push_str("a(");
    }
    text.push('z');
    for _ in 0..depth {
        text.push(')');
    }
    text.push(')');
    let tree = Tree::parse(text.into()).unwrap();
    let all = tree.walk();
    assert_eq!(all.len(), depth + 1);
    assert_eq!(all[depth].path().len(), depth + 1);
    assert_eq!(names(&tree.leaves()), ["z"]);
}

#[test]
fn wide_text_keeps_all_siblings() {
    let mut text = String::from("(");
    for i in 0..500 {
        if i > 0 {
            text.push(',');
        }
        text.push('n');
        text.push_str(&i.to_string());
        if i % 2 == 0 {
            text.push_str("(x,y)");
        }
    }
    text.push(')');
    let tree = Tree::parse(text.into()).unwrap();
    let top = tree.top();
    assert_eq!(top.len(), 500);
    assert_eq!(top[499].name(), "n499");
    assert_eq!(top[0].children().len(), 2);
    assert_eq!(top[1].children().len(), 0);
    assert_eq!(tree.walk().len(), 500 + 500);
    assert_eq!(tree.leaves().len(), 250 + 500);
}

#[test]
fn detached_tree_tells_which_buffers_it_fits() {
    let tree = Tree::parse("(ab(cd),ef)".into()).unwrap();
    let (buffer, detached) = tree.detach();
    assert!(detached.fits_in(&buffer));
    assert!(detached.fits_in("(xy(zw),uv) and more"));
    assert!(detached.fits_in("0123456789"));
    assert!(!detached.fits_in("(ab(cd),e"));
    assert!(!detached.fits_in(""));
    // The range of the first name would end inside the two bytes of `é`.
    assert!(!detached.fits_in("(aé(cd),ef)"));
}

#[test]
fn try_attach_hands_back_what_does_not_fit() {
    let tree = Tree::parse("(ab(cd),ef)".into()).unwrap();
    let (_, detached) = tree.detach();
    let (detached, buffer) = detached.try_attach(Cow::Borrowed("short")).err().unwrap();
    assert_eq!(buffer, "short");
    let tree = detached.try_attach(Cow::Borrowed("(gh(ij),kl)")).ok().unwrap();
    assert_eq!(names(&tree.walk()), ["gh", "ij", "kl"]);
}
