use atomas::elements::{Element, ElementType, Id, SpecialAtom};
use atomas::ring::CircularList;

fn ring_names(ring: &CircularList<Element>) -> Vec<String> {
    let mut it = ring.iter();
    let mut names = Vec::new();
    while let Some(e) = it.next() {
        names.push(e.name);
    }
    names
}

#[test]
fn test_adjmatrix() {
    let element = Element {
        id: Id::Single('H'),
        element_type: ElementType::Periodic(1),
        name: "Hydrogen".to_string(),
        rgb: (255, 255, 255),
    };

    let special = Element {
        id: Id::Single('+'),
        element_type: ElementType::Special(SpecialAtom::Plus),
        name: "Plus".to_string(),
        rgb: (255, 255, 255),
    };

    let mut ring = CircularList::new();
    ring.insert(element.clone(), 0);
    ring.insert(special, 1);

    assert_eq!(ring.len(), 2);
    assert_eq!(ring_names(&ring), vec!["Hydrogen".to_string(), "Plus".to_string()]);
    assert_eq!(element.get_name(), "Hydrogen");
}

#[test]
fn ring_push_then_insert_at_head() {
    let mut ring: CircularList<char> = CircularList::new();
    assert!(ring.is_empty());
    ring.push('X');
    ring.push('Y');
    ring.push('Z');
    let mut order = Vec::new();
    let mut it = ring.iter();
    while let Some(c) = it.next() {
        order.push(c);
    }
    assert_eq!(order, vec!['X', 'Y', 'Z']);

    ring.insert('W', 0);
    let mut order = Vec::new();
    let mut it = ring.iter();
    while let Some(c) = it.next() {
        order.push(c);
    }
    assert_eq!(order, vec!['W', 'X', 'Y', 'Z']);
    assert_eq!(ring.len(), 4);
}

#[test]
fn ring_insert_in_the_middle_and_at_the_end() {
    let mut ring: CircularList<u32> = CircularList::new();
    ring.insert(1, 0);
    ring.insert(3, 1);
    ring.insert(2, 1);
    ring.insert(4, 3);
    let mut order = Vec::new();
    let mut it = ring.iter();
    while let Some(v) = it.next() {
        order.push(v);
    }
    assert_eq!(order, vec![1, 2, 3, 4]);
}

#[test]
fn ring_iteration_is_one_revolution_and_restartable() {
    let mut ring: CircularList<u32> = CircularList::new();
    for v in 0..5u32 {
        ring.push(v);
    }
    let mut it = ring.iter();
    let mut count = 0;
    while it.next().is_some() {
        count += 1;
        assert!(count <= 5);
    }
    assert_eq!(count, 5);
    assert!(it.next().is_none());
    let mut again = ring.iter();
    assert_eq!(again.next(), Some(0));
}

#[test]
fn empty_ring_yields_nothing() {
    let ring: CircularList<u32> = CircularList::new();
    assert_eq!(ring.len(), 0);
    assert!(ring.iter().next().is_none());
}

#[test]
fn single_element_ring_links_to_itself() {
    let mut ring: CircularList<u32> = CircularList::new();
    ring.push(7);
    let mut it = ring.iter();
    assert_eq!(it.next(), Some(7));
    assert_eq!(it.next(), None);
}

#[test]
fn id_from_chars() {
    assert_eq!(Id::from_chars(&['H']), Some(Id::Single('H')));
    assert_eq!(Id::from_chars(&['H', 'e']), Some(Id::Double('H', 'e')));
    assert_eq!(Id::from_chars(&[]), None);
    assert_eq!(Id::from_chars(&['a', 'b', 'c']), None);
}
