use labs::item::Store;
use vstd::prelude::Seq;

struct Shelf {
    names: Vec<String>,
    prices: Vec<(usize, u32)>,
}

struct Priced<'a> {
    name: &'a str,
    price: u32,
}

impl<'a> Store<'a, Priced<'a>> for Shelf {
    type Inner = (usize, u32);

    // what stands for the ghost parts of the trait is never called
    fn entries(&self) -> Seq<(usize, u32)> {
        unreachable!()
    }

    fn linked(&self, _: &(usize, u32)) -> bool {
        unreachable!()
    }

    fn flattened(&'a self, _: &'a (usize, u32)) -> Priced<'a> {
        unreachable!()
    }

    fn items(&'a self) -> &'a [(usize, u32)] {
        &self.prices
    }

    fn flatten(&'a self, item: &'a (usize, u32)) -> Priced<'a> {
        Priced { name: &self.names[item.0], price: item.1 }
    }
}

fn shelf() -> Shelf {
    Shelf { names: vec!["tea".to_string(), "salt".to_string()], prices: vec![(1, 3), (0, 7), (1, 4)] }
}

#[test]
fn store_counts_its_entries() {
    assert_eq!(shelf().len(), 3);
    assert_eq!(Shelf { names: vec![], prices: vec![] }.len(), 0);
}

#[test]
fn store_gets_an_entry_with_what_it_refers_to() {
    let s = shelf();
    let p = s.get(1);
    assert_eq!((p.name, p.price), ("tea", 7));
}

#[test]
fn store_lists_its_entries_in_order() {
    let s = shelf();
    let all: Vec<(&str, u32)> = s.iter().iter().map(|p| (p.name, p.price)).collect();
    assert_eq!(all, vec![("salt", 3), ("tea", 7), ("salt", 4)]);
}
