use brandcell::union_find::SetNode;
use brandcell::{Base, GlobalGuard, Link, Root};

#[test]
fn union_find() {
    Root::with(|mut root: Root<SetNode<String>>| {
        let x = root.make_node(Base::new(SetNode::make("x".to_string())));
        let y = root.make_node(Base::new(SetNode::make("y".into())));
        let z = root.make_node(Base::new(SetNode::make("z".into())));

        let x_ = SetNode::find(&mut root, x);
        let y_ = SetNode::find(&mut root, y);
        let z_ = SetNode::find(&mut root, z);
        assert!(x_.same_as(x));
        assert!(y_.same_as(y));
        assert!(z_.same_as(z));
        root.write(x_).data.push_str("_append1");
        assert_eq!(root.read(x_).data, "x_append1");

        SetNode::union(&mut root, x, y);
        let x_ = SetNode::find(&mut root, x);
        let y_ = SetNode::find(&mut root, y);
        let z_ = SetNode::find(&mut root, z);
        assert!(x_.same_as(y_));
        assert!(!x_.same_as(z_));
        assert!(z_.same_as(z));
        root.write(y_).data.push_str("_append2");
        assert_eq!(root.read(y_).data, "x_append1_append2");

        SetNode::union(&mut root, x, z);
        let x_ = SetNode::find(&mut root, x);
        let y_ = SetNode::find(&mut root, y);
        let z_ = SetNode::find(&mut root, z);
        assert!(x_.same_as(y_));
        assert!(y_.same_as(z_));
        root.write(z_).data.push_str("_append3");
        assert_eq!(root.read(z_).data, "x_append1_append2_append3");
    });

    let mut root: Root<SetNode<&'static str>> = Root::global(GlobalGuard {});

    let x = root.make_node(Base::new(SetNode::make("")));
    let y = root.make_node(Base::new(SetNode::make("")));
    let z = root.make_node(Base::new(SetNode::make("")));

    root.write(x).data = "x";
    root.write(y).data = "y";
    root.write(z).data = "z";

    let x_ = SetNode::find(&mut root, x);
    let y_ = SetNode::find(&mut root, y);
    let z_ = SetNode::find(&mut root, z);
    assert_eq!(root.read(x_).data, "x");
    assert_eq!(root.read(y_).data, "y");
    assert_eq!(root.read(z_).data, "z");

    SetNode::union(&mut root, x, y);
    SetNode::union(&mut root, x, z);
    let x_ = SetNode::find(&mut root, x);
    let y_ = SetNode::find(&mut root, y);
    let z_ = SetNode::find(&mut root, z);
    assert!(x_.same_as(y_));
    assert!(y_.same_as(z_));

    let w = root.make_node(Base::new(SetNode::make("")));
    root.write(w).parent = Some(y);
    assert!(SetNode::find(&mut root, w).same_as(x_));

    root.write(w).data = "3";
    assert_eq!(root.read(w).data, "3");
}

#[test]
fn union_by_rank_tie_break() {
    Root::with(|mut root: Root<SetNode<u8>>| {
        let x = root.make_node(Base::new(SetNode::make(0)));
        let y = root.make_node(Base::new(SetNode::make(1)));
        let z = root.make_node(Base::new(SetNode::make(2)));

        // Tie of rank 0: y's root goes under x's, whose rank becomes 1.
        SetNode::union(&mut root, x, y);
        let r = SetNode::find(&mut root, x);
        assert!(r.same_as(x));
        assert_eq!(root.read(r).rank, 1);

        // Uniting two members of one set changes nothing.
        SetNode::union(&mut root, x, y);
        let r = SetNode::find(&mut root, y);
        assert!(r.same_as(x));
        assert_eq!(root.read(r).rank, 1);

        // Rank 0 under rank 1: the taller root wins, no rank change.
        SetNode::union(&mut root, z, x);
        let r = SetNode::find(&mut root, z);
        assert!(r.same_as(x));
        assert_eq!(root.read(r).rank, 1);
    });
}

#[test]
fn path_compression_rewrites_to_root() {
    Root::with(|mut root: Root<SetNode<u8>>| {
        // A hand-built chain x -> p1 -> p2 -> top, ranks rising along it.
        let top = root.make_node(Base::new(SetNode::make(3)));
        let p2 = root.make_node(Base::new(SetNode::make(2)));
        let p1 = root.make_node(Base::new(SetNode::make(1)));
        let x = root.make_node(Base::new(SetNode::make(0)));
        root.write(top).rank = 3;
        root.write(p2).rank = 2;
        root.write(p2).parent = Some(top);
        root.write(p1).rank = 1;
        root.write(p1).parent = Some(p2);
        root.write(x).parent = Some(p1);

        let r = SetNode::find(&mut root, x);
        assert!(r.same_as(top));
        // One find leaves x pointing at the root directly, not at p1.
        assert!(root.read(x).parent.unwrap().same_as(top));
        assert!(root.read(p1).parent.unwrap().same_as(top));
        assert!(root.read(p2).parent.unwrap().same_as(top));
        assert!(root.read(top).parent.is_none());
    });
}

#[test]
fn find_twice_is_idempotent() {
    Root::with(|mut root: Root<SetNode<u8>>| {
        let top = root.make_node(Base::new(SetNode::make(9)));
        let mid = root.make_node(Base::new(SetNode::make(8)));
        let x = root.make_node(Base::new(SetNode::make(7)));
        root.write(top).rank = 2;
        root.write(mid).rank = 1;
        root.write(mid).parent = Some(top);
        root.write(x).parent = Some(mid);

        let first = SetNode::find(&mut root, x);
        let parents_after_first = snapshot_parents(&root, &[x, mid, top]);
        let second = SetNode::find(&mut root, x);
        let parents_after_second = snapshot_parents(&root, &[x, mid, top]);

        assert!(first.same_as(second));
        assert!(first.same_as(top));
        assert_eq!(parents_after_first, parents_after_second);
    });
}

fn snapshot_parents(root: &Root<SetNode<u8>>, links: &[Link]) -> Vec<Option<usize>> {
    links.iter().map(|&l| root.read(l).parent.map(|p| p.index)).collect()
}
