use std::any::Any;
use std::cell::{Cell, RefCell};
use std::rc::Rc;

use uni::react::{Graph, Role};

type Run = Box<dyn FnMut(&Runtime) -> Box<dyn Any>>;

#[derive(Clone)]
struct Runtime {
    graph: Rc<RefCell<Graph>>,
    values: Rc<RefCell<Vec<Option<Box<dyn Any>>>>>,
    runs: Rc<RefCell<Vec<Option<Run>>>>,
}

#[derive(Clone)]
struct Signal {
    rt: Runtime,
    key: usize,
}

#[derive(Clone)]
struct Memo {
    rt: Runtime,
    key: usize,
}

impl Runtime {
    fn new() -> Runtime {
        Runtime {
            graph: Rc::new(RefCell::new(Graph::new())),
            values: Rc::new(RefCell::new(Vec::new())),
            runs: Rc::new(RefCell::new(Vec::new())),
        }
    }

    fn node(&self, role: Role, value: Option<Box<dyn Any>>, run: Option<Run>) -> usize {
        self.values.borrow_mut().push(value);
        self.runs.borrow_mut().push(run);
        self.graph.borrow_mut().add_node(role)
    }

    fn signal<T: Clone + 'static>(&self, value: T) -> Typed<T, Signal> {
        let key = self.node(Role::Signal, Some(Box::new(value)), None);
        Typed { inner: Signal { rt: self.clone(), key }, _value: std::marker::PhantomData }
    }

    fn memo<T: Clone + 'static>(&self, mut f: impl FnMut(&Runtime) -> T + 'static) -> Typed<T, Memo> {
        let key = self.node(Role::Memo, None, Some(Box::new(move |rt| Box::new(f(rt)))));
        Typed { inner: Memo { rt: self.clone(), key }, _value: std::marker::PhantomData }
    }

    fn effect(&self, mut f: impl FnMut(&Runtime) + 'static) -> usize {
        let key = self.node(Role::Effect, None, Some(Box::new(move |rt| Box::new(f(rt)))));
        self.run_node(key);
        key
    }

    fn run_node(&self, key: usize) {
        let role = self.graph.borrow_mut().begin_run(key);
        let mut run = self.runs.borrow_mut()[key].take().unwrap();
        let value = run(self);
        self.runs.borrow_mut()[key] = Some(run);
        self.values.borrow_mut()[key] = Some(value);
        self.graph.borrow_mut().end_run(key, role);
    }

    fn flush(&self) {
        if !self.graph.borrow_mut().begin_flush() {
            return;
        }
        loop {
            let next = self.graph.borrow_mut().next_effect();
            match next {
                Some(key) => self.run_node(key),
                None => break,
            }
        }
        self.graph.borrow_mut().end_flush();
    }

    fn read<T: Clone + 'static>(&self, key: usize) -> T {
        let values = self.values.borrow();
        let value: &Box<dyn Any> = values[key].as_ref().unwrap();
        (**value).downcast_ref::<T>().unwrap().clone()
    }
}

struct Typed<T, N> {
    inner: N,
    _value: std::marker::PhantomData<T>,
}

impl<T, N: Clone> Clone for Typed<T, N> {
    fn clone(&self) -> Self {
        Typed { inner: self.inner.clone(), _value: std::marker::PhantomData }
    }
}

impl<T: Clone + 'static> Typed<T, Signal> {
    fn get(&self) -> T {
        self.inner.rt.graph.borrow_mut().track(self.inner.key);
        self.inner.rt.read(self.inner.key)
    }

    fn set(&self, value: T) {
        self.inner.rt.values.borrow_mut()[self.inner.key] = Some(Box::new(value));
        self.inner.rt.graph.borrow_mut().mark_subscribers_dirty(self.inner.key);
        self.inner.rt.flush();
    }
}

impl<T: Clone + 'static> Typed<T, Memo> {
    fn get(&self) -> T {
        let dirty = self.inner.rt.graph.borrow().is_dirty(self.inner.key);
        if dirty {
            self.inner.rt.run_node(self.inner.key);
        }
        self.inner.rt.graph.borrow_mut().track(self.inner.key);
        self.inner.rt.read(self.inner.key)
    }
}

#[test]
fn signal_memo_effect_propagation() {
    let rt = Runtime::new();
    let count = rt.signal(1i32);

    let c2 = count.clone();
    let doubled = rt.memo(move |_| c2.get() * 2);

    let observed = Rc::new(Cell::new(0i32));
    let obs = observed.clone();
    let d2 = doubled.clone();
    let _eff = rt.effect(move |_| {
        obs.set(d2.get());
    });

    assert_eq!(observed.get(), 2);

    count.set(5);
    assert_eq!(observed.get(), 10);
}

#[test]
fn effect_skips_unrelated_signal() {
    let rt = Runtime::new();
    let watched = rt.signal(0i32);
    let unrelated = rt.signal(0i32);

    let runs = Rc::new(Cell::new(0u32));
    let r = runs.clone();
    let w = watched.clone();
    let _eff = rt.effect(move |_| {
        let _ = w.get(); // only depends on `watched`
        r.set(r.get() + 1);
    });

    assert_eq!(runs.get(), 1); // initial run

    unrelated.set(42);
    assert_eq!(runs.get(), 1);

    watched.set(1);
    assert_eq!(runs.get(), 2);
}

#[test]
fn memo_caches_until_dependency_changes() {
    let rt = Runtime::new();
    let a = rt.signal(2i32);
    let b = rt.signal(100i32); // unrelated to the memo

    let computes = Rc::new(Cell::new(0u32));
    let c = computes.clone();
    let a2 = a.clone();
    let squared = rt.memo(move |_| {
        c.set(c.get() + 1);
        let v = a2.get();
        v * v
    });

    assert_eq!(computes.get(), 0);

    assert_eq!(squared.get(), 4);
    assert_eq!(computes.get(), 1);

    assert_eq!(squared.get(), 4);
    assert_eq!(squared.get(), 4);
    assert_eq!(computes.get(), 1);

    b.set(101);
    assert_eq!(computes.get(), 1);
    assert_eq!(squared.get(), 4);
    assert_eq!(computes.get(), 1);

    a.set(3);
    assert_eq!(computes.get(), 1); // still lazy: not yet recomputed
    assert_eq!(squared.get(), 9);
    assert_eq!(computes.get(), 2);
}

#[test]
fn dynamic_dependencies_are_rebuilt() {
    let rt = Runtime::new();
    let cond = rt.signal(true);
    let x = rt.signal(1i32);
    let y = rt.signal(1i32);

    let runs = Rc::new(Cell::new(0u32));
    let r = runs.clone();
    let (cc, xx, yy) = (cond.clone(), x.clone(), y.clone());
    let _eff = rt.effect(move |_| {
        r.set(r.get() + 1);
        if cc.get() {
            let _ = xx.get();
        } else {
            let _ = yy.get();
        }
    });
    assert_eq!(runs.get(), 1);

    y.set(2);
    assert_eq!(runs.get(), 1);
    x.set(2);
    assert_eq!(runs.get(), 2);

    cond.set(false);
    assert_eq!(runs.get(), 3);
    x.set(3); // x no longer a dependency
    assert_eq!(runs.get(), 3);
    y.set(3);
    assert_eq!(runs.get(), 4);
}

#[test]
fn a_set_runs_effects_through_chains_of_memos() {
    let rt = Runtime::new();
    let (a, b) = (rt.signal(1i32), rt.signal(10i32));
    let a1 = a.clone();
    let first = rt.memo(move |_| a1.get() + 1);
    let f1 = first.clone();
    let second = rt.memo(move |_| f1.get() * 2);
    let runs = Rc::new(RefCell::new(vec![]));
    let (r, s, f) = (runs.clone(), second.clone(), first.clone());
    let _far = rt.effect(move |_| r.borrow_mut().push(("far", s.get() + f.get())));
    let (r, b1) = (runs.clone(), b.clone());
    let _other = rt.effect(move |_| r.borrow_mut().push(("other", b1.get())));
    runs.borrow_mut().clear();
    a.set(4);
    assert_eq!(*runs.borrow(), vec![("far", 15)]);
    runs.borrow_mut().clear();
    b.set(20);
    assert_eq!(*runs.borrow(), vec![("other", 20)]);
    runs.borrow_mut().clear();
    a.set(5);
    assert_eq!(*runs.borrow(), vec![("far", 18)]);
}
