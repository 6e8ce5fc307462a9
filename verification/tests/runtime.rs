use putki::runtime::{resolve_from, Ptr, PtrContext, PutkiTypeCast, ResolveFrom, Tracker};
use putki::shared::Resolver;
use putki::source::ResolveStatus;
use std::cell::RefCell;
use std::rc::Rc;

struct Shelf {
    names: Vec<String>,
}

#[derive(Debug, PartialEq)]
struct Item {
    name: String,
}

impl ResolveFrom<Shelf> for Item {
    fn resolve(src: &Shelf, path: &str) -> Option<Rc<Item>> {
        if src.names.iter().any(|n| n == path) {
            Some(Rc::new(Item { name: path.to_string() }))
        } else {
            None
        }
    }
}

struct Log {
    followed: RefCell<Vec<String>>,
}

impl Tracker for Log {
    fn follow(&self, path: &str) {
        self.followed.borrow_mut().push(path.to_string());
    }
}

#[test]
fn runtime_ptr_resolves_and_keeps_its_target() {
    let shelf = Rc::new(Shelf { names: vec!["a".to_string(), "b".to_string()] });
    let log = Rc::new(Log { followed: RefCell::new(Vec::new()) });
    let ctx = PtrContext { tracker: Some(log.clone()), source: shelf };
    let mut p: Ptr<Log, Shelf, Item> = Ptr::new(ctx, "b");
    let first = p.resolve().unwrap();
    assert_eq!(first.name, "b");
    let second = p.resolve().unwrap();
    assert!(Rc::ptr_eq(&first, &second));
    assert_eq!(*log.followed.borrow(), vec!["b".to_string(), "b".to_string()]);
}

#[test]
fn runtime_ptr_without_tracker() {
    let shelf = Rc::new(Shelf { names: vec!["x".to_string()] });
    let ctx: PtrContext<Log, Shelf> = PtrContext { tracker: None, source: shelf };
    let mut p: Ptr<Log, Shelf, Item> = Ptr::new(ctx, "x");
    assert_eq!(*p.resolve().unwrap(), Item { name: "x".to_string() });
}

struct CountingShelf {
    asked: RefCell<u32>,
}

impl ResolveFrom<CountingShelf> for Item {
    fn resolve(src: &CountingShelf, path: &str) -> Option<Rc<Item>> {
        *src.asked.borrow_mut() += 1;
        Some(Rc::new(Item { name: format!("{}!", path) }))
    }
}

#[test]
fn runtime_ptr_asks_its_source_once() {
    let shelf = Rc::new(CountingShelf { asked: RefCell::new(0) });
    let ctx: PtrContext<Log, CountingShelf> = PtrContext { tracker: None, source: shelf.clone() };
    let mut p: Ptr<Log, CountingShelf, Item> = Ptr::new(ctx, "y");
    assert_eq!(p.resolve().unwrap().name, "y!");
    assert_eq!(p.resolve().unwrap().name, "y!");
    assert_eq!(*shelf.asked.borrow(), 1);
}

struct Numbers;

impl Resolver<PtrContext<Log, Numbers>> for Numbers {
    type Object = u32;
    fn load(&self, _pctx: &PtrContext<Log, Numbers>, path: &str) -> Option<Rc<u32>> {
        path.parse::<u32>().ok().map(Rc::new)
    }
}

#[derive(Debug)]
struct Plain;

impl PutkiTypeCast for Plain {}

#[derive(Debug, PartialEq)]
struct Doubled(u32);

impl PutkiTypeCast for Doubled {
    fn rc_convert<S>(_src: Rc<S>) -> Option<Rc<Doubled>> {
        Some(Rc::new(Doubled(2)))
    }
}

fn numbers_context() -> (Rc<Numbers>, PtrContext<Log, Numbers>) {
    let src = Rc::new(Numbers);
    let ctx = PtrContext { tracker: None, source: src.clone() };
    (src, ctx)
}

#[test]
fn runtime_resolve_from_empty_path_is_null() {
    let (src, ctx) = numbers_context();
    assert!(matches!(resolve_from::<Plain, Log, Numbers>(&src, &ctx, ""), ResolveStatus::Null));
}

#[test]
fn runtime_resolve_from_without_conversion_fails() {
    let (src, ctx) = numbers_context();
    assert!(matches!(resolve_from::<Plain, Log, Numbers>(&src, &ctx, "12"), ResolveStatus::Failed));
    assert!(matches!(resolve_from::<Plain, Log, Numbers>(&src, &ctx, "nope"), ResolveStatus::Failed));
}

#[test]
fn runtime_resolve_from_converts_what_loads() {
    let (src, ctx) = numbers_context();
    match resolve_from::<Doubled, Log, Numbers>(&src, &ctx, "12") {
        ResolveStatus::Resolved(d) => assert_eq!(*d, Doubled(2)),
        _ => panic!("expected a resolved object"),
    }
    assert!(matches!(resolve_from::<Doubled, Log, Numbers>(&src, &ctx, "nope"), ResolveStatus::Failed));
}

#[test]
fn context_ptr_resolves_through_its_loader() {
    let log = Rc::new(Log { followed: RefCell::new(Vec::new()) });
    let ctx = PtrContext { tracker: Some(log.clone()), source: Rc::new(Numbers) };
    let p: putki::source::Ptr<Log, Numbers, Doubled> = putki::source::Ptr::new(ctx, "7");
    assert_eq!(p.resolve().map(|d| d.0), Some(2));
    assert_eq!(*log.followed.borrow(), vec!["7".to_string()]);
}

#[test]
fn context_ptr_with_empty_path_is_none() {
    let (_, ctx) = numbers_context();
    let p: putki::source::Ptr<Log, Numbers, Doubled> = putki::source::Ptr::new(ctx, "");
    assert!(p.resolve().is_none());
}
