use brandcell::{Base, GlobalGuard, Link, Root, ThreadGuard};

struct Foo {
    data: u8,
    link_a: Option<Link>,
    link_b: Option<Link>,
}

struct Bar {
    data: u8,
    next: Option<Link>,
}

#[test]
fn it_works() {
    Root::with(|mut root: Root<Foo>| {
        let node2 = root.make_node(Base::new(Foo { data: 2u8, link_a: None, link_b: None }));
        let node3 = root.make_node(Base::new(Foo { data: 3u8, link_a: None, link_b: Some(node2) }));
        let node1 =
            root.make_node(Base::new(Foo { data: 1u8, link_a: Some(node2), link_b: Some(node3) }));

        root.write(node2).link_a = Some(node3);
        root.write(node2).link_b = Some(node1);
        root.write(node3).link_a = Some(node1);

        assert_eq!(root.read(node1).data, 1);
        let next_a = root.read(node1).link_a.unwrap();
        assert_eq!(root.read(next_a).data, 2);
        let next_b = root.read(node1).link_b.unwrap();
        assert_eq!(root.read(next_b).data, 3);
        assert_eq!(root.read(node2).data, 2);
        let next_a = root.read(node2).link_a.unwrap();
        assert_eq!(root.read(next_a).data, 3);
        let next_b = root.read(node2).link_b.unwrap();
        assert_eq!(root.read(next_b).data, 1);
        assert_eq!(root.read(node3).data, 3);
        let next_a = root.read(node3).link_a.unwrap();
        assert_eq!(root.read(next_a).data, 1);
        let next_b = root.read(node3).link_b.unwrap();
        assert_eq!(root.read(next_b).data, 2);
    });

    Root::with(|mut root: Root<Bar>| {
        let node_ = root.make_node(Base::new(Bar { data: 1u8, next: None }));
        let node = root.make_node(Base::new(Bar { data: 0u8, next: Some(node_) }));

        root.write(node_).next = Some(node);

        Root::with(|mut _root: Root<Bar>| {
            // A nested scope: the outer root is still the only authority over
            // its own nodes and stays usable inside.
            assert_eq!(root.read(node).data, 0);
        });

        {
            let inner = root.make_node(Base::new(Bar { data: 1u8, next: None }));
            root.write(inner).next = Some(node);
            let next_ = root.read(inner).next.unwrap();
            assert_eq!(root.read(inner).data, 1);
            assert_eq!(root.read(next_).data, 0);
        }

        root.write(node).next = Some(node_);
        root.write(node).data = 7;

        let next = root.read(node).next.unwrap();
        assert_eq!(root.read(node).data, 7);
        assert_eq!(root.read(next).data, 1);
        let next_ = root.read(node_).next.unwrap();
        assert_eq!(root.read(node_).data, 1);
        assert_eq!(root.read(next_).data, 7);
    });

    let mut bar = 1;
    let mut foo = (&mut bar, 2);
    foo.0 = &mut foo.1;
    *foo.0 = 3;
    assert_eq!(bar, 1);
}

#[test]
fn scoped_result_passes_through() {
    let sum = Root::with(|mut root: Root<u32>| {
        let a = root.make_node(Base::new(11u32));
        let b = root.make_node(Base::new(31u32));
        root.read(a) + root.read(b)
    });
    assert_eq!(sum, 42);
}

#[test]
fn links_compare_by_identity() {
    Root::with(|mut root: Root<u8>| {
        let a = root.make_node(Base::new(5));
        let b = root.make_node(Base::new(5));
        let a_alias = a;
        assert!(a.same_as(a_alias));
        assert!(!a.same_as(b));
        // Equal payloads do not make equal nodes.
        assert_eq!(root.read(a), root.read(b));
    });
}

#[test]
fn global_guard_root() {
    let mut root: Root<u8> = Root::global(GlobalGuard {});
    let l = root.make_node(Base::new(9));
    *root.write(l) += 1;
    assert_eq!(*root.read(l), 10);
}

#[test]
fn thread_guard_root() {
    let mut root: Root<&'static str> = Root::thread(ThreadGuard {});
    let l = root.make_node(Base::new("hello"));
    assert_eq!(*root.read(l), "hello");
}
