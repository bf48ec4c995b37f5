use mclog_capture::{Nbt, NbtCompound};

fn keys(c: &NbtCompound) -> Vec<String> {
    c.keys()
}

#[test]
fn insert_keeps_order_and_place() {
    let mut c = NbtCompound::new();
    assert!(c.is_empty());
    assert_eq!(c.insert("a".to_string(), Nbt::Int(1)), None);
    assert_eq!(c.insert("b".to_string(), Nbt::Int(2)), None);
    assert_eq!(c.insert("c".to_string(), Nbt::Int(3)), None);
    assert_eq!(c.insert("a".to_string(), Nbt::Int(10)), Some(Nbt::Int(1)));
    assert_eq!(keys(&c), vec!["a", "b", "c"]);
    assert_eq!(c.get("a"), Some(&Nbt::Int(10)));
    assert_eq!(c.get("z"), None);
    assert_eq!(c.len(), 3);
}

#[test]
fn swap_remove_moves_the_last_entry() {
    let mut c = NbtCompound::new();
    c.insert("a".to_string(), Nbt::Int(1));
    c.insert("b".to_string(), Nbt::Int(2));
    c.insert("c".to_string(), Nbt::Int(3));
    c.insert("d".to_string(), Nbt::Int(4));
    assert_eq!(c.swap_remove("b"), Some(Nbt::Int(2)));
    assert_eq!(keys(&c), vec!["a", "d", "c"]);
    assert_eq!(c.swap_remove("b"), None);
    assert_eq!(keys(&c), vec!["a", "d", "c"]);
    assert_eq!(c.swap_remove("c"), Some(Nbt::Int(3)));
    assert_eq!(keys(&c), vec!["a", "d"]);
    assert_eq!(c.get("d"), Some(&Nbt::Int(4)));
}

#[test]
fn entries_come_out_in_order() {
    let mut c = NbtCompound::new();
    c.insert("z".to_string(), Nbt::Int(1));
    c.insert("a".to_string(), Nbt::Int(2));
    c.insert("z".to_string(), Nbt::Int(3));
    let e = c.into_entries();
    assert_eq!(e, vec![("z".to_string(), Nbt::Int(3)), ("a".to_string(), Nbt::Int(2))]);
}
