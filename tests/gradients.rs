use dfdx::gradients::{GradientError, GradientTape, Gradients, NoneTape, OwnedTape, Tape};
use dfdx::phantom::{IntoPhantom, PhantomTensor};
use dfdx::unique_id::{UniqueId, UniqueIdGenerator};
use std::cell::RefCell;
use std::rc::Rc;

type Op = Box<dyn FnOnce(Gradients<f32>) -> Gradients<f32>>;

#[test]
fn test_backward() {
    let mut ids = UniqueIdGenerator::new();
    let id = ids.generate().unwrap();
    let t1 = PhantomTensor::new(id, 5);
    let _t1 = PhantomTensor::new(id, 5);

    let mut tape: GradientTape<f32, _> = GradientTape::default();
    tape.add_backward_op(move |mut g: Gradients<f32>| {
        let t_grad = g.mut_gradient(&_t1).unwrap();
        for x in t_grad.iter_mut() {
            *x += 1.0;
        }
        g
    });
    let g = tape.execute();
    assert_eq!(g.ref_gradient(&t1).unwrap(), &[1.0; 5]);
}

#[test]
fn execution_runs_in_reverse_of_recording() {
    let log: Rc<RefCell<Vec<usize>>> = Rc::new(RefCell::new(Vec::new()));
    let mut tape: GradientTape<f32, Op> = GradientTape::new();
    for k in 0..6usize {
        let log = Rc::clone(&log);
        tape.add_backward_op(Box::new(move |g: Gradients<f32>| {
            log.borrow_mut().push(k);
            g
        }));
    }
    let _g = tape.execute();
    assert_eq!(*log.borrow(), vec![5, 4, 3, 2, 1, 0]);
}

#[test]
fn two_accumulating_closures_run_b_then_a() {
    let x = PhantomTensor::new(UniqueId(7), 3);
    let log: Rc<RefCell<Vec<&'static str>>> = Rc::new(RefCell::new(Vec::new()));
    let mut tape: GradientTape<f32, Op> = GradientTape::new();
    let log_a = Rc::clone(&log);
    tape.add_backward_op(Box::new(move |mut g: Gradients<f32>| {
        for v in g.mut_gradient(&x).unwrap().iter_mut() {
            *v += 1.0;
        }
        log_a.borrow_mut().push("A");
        g
    }));
    let log_b = Rc::clone(&log);
    tape.add_backward_op(Box::new(move |mut g: Gradients<f32>| {
        for v in g.mut_gradient(&x).unwrap().iter_mut() {
            *v += 2.0;
        }
        log_b.borrow_mut().push("B");
        g
    }));
    let g = tape.execute();
    assert_eq!(g.ref_gradient(&x).unwrap(), &[3.0, 3.0, 3.0]);
    assert_eq!(*log.borrow(), vec!["B", "A"]);
}

#[test]
fn fresh_gradient_is_zero_filled_then_written() {
    let t = PhantomTensor::new(UniqueId(1), 5);
    let mut g: Gradients<f32> = Gradients::default();
    let buf = g.mut_gradient(&t).unwrap();
    assert_eq!(buf.to_vec(), vec![0.0f32; 5]);
    buf[0] = 1.0;
    assert_eq!(g.ref_gradient(&t).unwrap(), &[1.0, 0.0, 0.0, 0.0, 0.0]);
}

#[test]
fn fresh_gradient_uses_the_store_zero() {
    let t = PhantomTensor::new(UniqueId(2), 4);
    let mut g: Gradients<i64> = Gradients::new(-1);
    assert_eq!(g.mut_gradient(&t).unwrap().to_vec(), vec![-1i64; 4]);
    let empty = PhantomTensor::new(UniqueId(3), 0);
    assert!(g.mut_gradient(&empty).unwrap().is_empty());
}

#[test]
fn mut_gradient_keeps_existing_buffer() {
    let t = PhantomTensor::new(UniqueId(4), 3);
    let mut g: Gradients<f32> = Gradients::default();
    g.mut_gradient(&t).unwrap().copy_from_slice(&[-4.0, 5.0, -6.0]);
    assert_eq!(g.mut_gradient(&t).unwrap().to_vec(), vec![-4.0, 5.0, -6.0]);
}

#[test]
fn remove_returns_written_buffer_and_forgets_it() {
    let t = PhantomTensor::new(UniqueId(5), 3);
    let mut g: Gradients<f32> = Gradients::default();
    g.mut_gradient(&t).unwrap().copy_from_slice(&[-4.0, 5.0, -6.0]);
    assert_eq!(g.remove(&t).unwrap(), vec![-4.0, 5.0, -6.0]);
    assert_eq!(g.ref_gradient(&t), Err(GradientError::Lookup));
    assert_eq!(g.remove(&t), Err(GradientError::Lookup));
}

#[test]
fn lookups_of_unwritten_identity_fail() {
    let t = PhantomTensor::new(UniqueId(6), 3);
    let other = PhantomTensor::new(UniqueId(9), 3);
    let mut g: Gradients<f32> = Gradients::default();
    assert_eq!(g.ref_gradient(&t), Err(GradientError::Lookup));
    assert_eq!(g.remove(&t), Err(GradientError::Lookup));
    g.mut_gradient(&other).unwrap();
    assert_eq!(g.ref_gradient(&t), Err(GradientError::Lookup));
    assert_eq!(g.remove(&t), Err(GradientError::Lookup));
}

#[test]
fn shape_mismatch_is_a_type_error() {
    let t3 = PhantomTensor::new(UniqueId(8), 3);
    let t5 = PhantomTensor::new(UniqueId(8), 5);
    let mut g: Gradients<f32> = Gradients::default();
    g.mut_gradient(&t3).unwrap();
    assert_eq!(g.mut_gradient(&t5).err(), Some(GradientError::Type));
    assert_eq!(g.ref_gradient(&t5), Err(GradientError::Type));
    assert_eq!(g.remove(&t5), Err(GradientError::Type));
    assert_eq!(g.ref_gradient(&t3).unwrap(), &[0.0, 0.0, 0.0]);
}

#[test]
fn mut_and_ref_gives_target_and_source() {
    let a = PhantomTensor::new(UniqueId(10), 3);
    let b = PhantomTensor::new(UniqueId(11), 5);
    let mut g: Gradients<f32> = Gradients::default();
    g.mut_gradient(&a).unwrap().copy_from_slice(&[-4.0, 5.0, -6.0]);
    g.mut_gradient(&b).unwrap().copy_from_slice(&[1.0, 2.0, 3.0, 4.0, 5.0]);
    let (g_a, g_b) = g.mut_and_ref(&a, &b).unwrap();
    assert_eq!(g_a.to_vec(), vec![-4.0, 5.0, -6.0]);
    assert_eq!(g_b, vec![1.0, 2.0, 3.0, 4.0, 5.0]);
    g_a[1] += g_b[4];
    assert_eq!(g.ref_gradient(&a).unwrap(), &[-4.0, 10.0, -6.0]);
}

#[test]
fn mut_and_ref_creates_missing_target() {
    let a = PhantomTensor::new(UniqueId(12), 2);
    let b = PhantomTensor::new(UniqueId(13), 1);
    let mut g: Gradients<f32> = Gradients::default();
    g.mut_gradient(&b).unwrap().copy_from_slice(&[7.0]);
    let (g_a, g_b) = g.mut_and_ref(&a, &b).unwrap();
    assert_eq!(g_a.to_vec(), vec![0.0, 0.0]);
    assert_eq!(g_b, vec![7.0]);
}

#[test]
fn mut_and_ref_rejects_shared_identity() {
    let a = PhantomTensor::new(UniqueId(14), 3);
    let same_shape = PhantomTensor::new(UniqueId(14), 3);
    let other_shape = PhantomTensor::new(UniqueId(14), 2);
    let mut g: Gradients<f32> = Gradients::default();
    assert_eq!(g.mut_and_ref(&a, &same_shape).err(), Some(GradientError::IdentityCollision));
    g.mut_gradient(&a).unwrap();
    assert_eq!(g.mut_and_ref(&a, &same_shape).err(), Some(GradientError::IdentityCollision));
    assert_eq!(g.mut_and_ref(&other_shape, &a).err(), Some(GradientError::IdentityCollision));
}

#[test]
fn mut_and_ref_missing_source_leaves_store_alone() {
    let a = PhantomTensor::new(UniqueId(15), 3);
    let b = PhantomTensor::new(UniqueId(16), 3);
    let mut g: Gradients<f32> = Gradients::default();
    assert_eq!(g.mut_and_ref(&a, &b).err(), Some(GradientError::Lookup));
    assert_eq!(g.ref_gradient(&a), Err(GradientError::Lookup));
    let b_wide = PhantomTensor::new(UniqueId(16), 4);
    g.mut_gradient(&b).unwrap();
    assert_eq!(g.mut_and_ref(&a, &b_wide).err(), Some(GradientError::Type));
    let a_wide = PhantomTensor::new(UniqueId(15), 4);
    g.mut_gradient(&a).unwrap();
    assert_eq!(g.mut_and_ref(&a_wide, &b).err(), Some(GradientError::Type));
}

#[test]
fn empty_tape_gives_empty_store() {
    let tape: GradientTape<f32, Op> = GradientTape::new();
    let mut g = tape.execute();
    let t = PhantomTensor::new(UniqueId(0), 1);
    assert_eq!(g.ref_gradient(&t), Err(GradientError::Lookup));
    assert_eq!(g.mut_gradient(&t).unwrap().to_vec(), vec![0.0]);
}

#[test]
fn owned_tape_records_and_none_tape_ignores() {
    assert!(<OwnedTape<f32, Op> as Tape<Op>>::OWNS_TAPE);
    assert!(!<NoneTape as Tape<Op>>::OWNS_TAPE);
    let t = PhantomTensor::new(UniqueId(20), 2);
    let mut owned: OwnedTape<f32, Op> = OwnedTape::default();
    owned.add_backward_op(Box::new(move |mut g: Gradients<f32>| {
        g.mut_gradient(&t).unwrap()[1] = 4.0;
        g
    }));
    let mut none = NoneTape;
    none.add_backward_op(Box::new(move |mut g: Gradients<f32>| {
        g.mut_gradient(&t).unwrap()[0] = 9.0;
        g
    }) as Op);
    let g = owned.0.execute();
    assert_eq!(g.ref_gradient(&t).unwrap(), &[0.0, 4.0]);
}

#[test]
fn generator_hands_out_distinct_increasing_ids() {
    let mut ids = UniqueIdGenerator::new();
    let a = ids.generate().unwrap();
    let b = ids.generate().unwrap();
    let c = ids.generate().unwrap();
    assert_eq!(a, UniqueId(0));
    assert!(a < b && b < c);
    assert_ne!(a, c);
}

#[test]
fn phantom_carries_identity_and_shape() {
    let t = PhantomTensor::new(UniqueId(30), 6);
    let p = t.phantom();
    assert_eq!(p, t);
    assert_eq!(p.id(), UniqueId(30));
    assert_eq!(p.numel, 6);
}
