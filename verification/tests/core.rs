use std::sync::Arc;
use venum::{Res, Tensor, TensorError};

#[test]
fn same_memory() -> Res<()> {
    let a = Tensor::new(&[1, 2, 3, 4, 5, 6, 7, 8, 9], &[1, 9])?;
    let b = a.view(&[3, 3])?;

    let a_data_ptr = Arc::as_ptr(&a.data);
    let b_data_ptr = Arc::as_ptr(&b.data);
    assert_eq!(a_data_ptr, b_data_ptr);

    let c = a.reshape(&[3, 3])?;
    assert_ne!(Arc::as_ptr(&a.data), Arc::as_ptr(&c.data));

    Ok(())
}

#[test]
fn contiguous() -> Res<()> {
    let a = Tensor::arange(1, 28, 1);
    let a = a.reshape(&[3, 3, 3])?;

    let flip_0 = a.flip(&[0])?;
    let flip_01 = a.flip(&[0, 1])?;
    let flip_all = a.flip(&[0, 1, 2])?;

    assert!(a.is_contiguous());
    assert!(flip_all.is_contiguous());

    assert!(!flip_0.is_contiguous());
    assert!(!flip_01.is_contiguous());

    Ok(())
}

#[test]
fn buffer_sharing_transforms() -> Res<()> {
    let a = Tensor::arange(0, 24, 1).reshape(&[2, 3, 4])?;
    let p = Arc::as_ptr(&a.data);

    assert_eq!(Arc::as_ptr(&a.view(&[4, 6])?.data), p);
    assert_eq!(Arc::as_ptr(&a.slice(&[(0, 1)])?.data), p);
    assert_eq!(Arc::as_ptr(&a.permute(&[2, 0, 1])?.data), p);
    assert_eq!(Arc::as_ptr(&a.flip(&[1])?.data), p);
    assert_eq!(Arc::as_ptr(&a.expand(&[2, 3, 4])?.data), p);
    assert_eq!(Arc::as_ptr(&a.squeeze()?.data), p);
    assert_eq!(Arc::as_ptr(&a.transpose(0, 1)?.data), p);
    assert_eq!(Arc::as_ptr(&a.unsqueeze(5)?.data), p);

    assert_ne!(Arc::as_ptr(&a.reshape(&[24])?.data), p);
    assert_ne!(Arc::as_ptr(&a.to_contiguous()?.data), p);

    Ok(())
}

#[test]
fn permute_round_trip() -> Res<()> {
    let a = Tensor::arange(0, 24, 1).reshape(&[2, 3, 4])?;
    let b = a.permute(&[2, 0, 1])?;
    let c = b.permute(&[1, 2, 0])?;

    assert_eq!(c.sizes(), a.sizes());
    assert_eq!(c.offset(), a.offset());
    assert_eq!(c.data(), a.data());
    assert_eq!(Arc::as_ptr(&c.data), Arc::as_ptr(&a.data));

    Ok(())
}

#[test]
fn flip_involution() -> Res<()> {
    let a = Tensor::arange(0, 24, 1).reshape(&[2, 3, 4])?;
    let b = a.flip(&[0, 2])?;
    let c = b.flip(&[0, 2])?;

    assert_eq!(c.sizes(), a.sizes());
    assert_eq!(c.data(), a.data());
    assert_ne!(b.data(), a.data());

    Ok(())
}

#[test]
fn view_reshape_equivalence() -> Res<()> {
    let a = Tensor::arange(0, 12, 1).reshape(&[3, 4])?;
    let v = a.view(&[2, 6])?;
    let r = a.reshape(&[2, 6])?;

    assert_eq!(v.data(), r.data());
    assert_eq!(v.sizes(), r.sizes());

    Ok(())
}

#[test]
fn broadcast_sizes() -> Res<()> {
    let a = Tensor::<i64>::zeroes(3).reshape(&[3, 1])?;
    let b = Tensor::<i64>::zeroes(4).reshape(&[1, 4])?;
    assert_eq!(a.shape.broadcast(&b.shape)?, vec![3, 4]);

    let c = Tensor::<i64>::zeroes(5);
    let d = Tensor::<i64>::zeroes(10).reshape(&[2, 5])?;
    assert_eq!(c.shape.broadcast(&d.shape)?, vec![2, 5]);

    let e = Tensor::<i64>::zeroes(3);
    let f = Tensor::<i64>::zeroes(4);
    match e.shape.broadcast(&f.shape) {
        Err(TensorError::IncompatibleBroadcast { left, right }) => {
            assert_eq!((left, right), (3, 4));
        }
        other => panic!("expected an incompatible broadcast, got {:?}", other.err()),
    }

    Ok(())
}

#[test]
fn flip_last_dimension_contiguity() -> Res<()> {
    // A one-dimensional tensor stays contiguous when its only (last)
    // dimension is flipped; with more dimensions the adjacent-pair test
    // fails on the last pair.
    let line = Tensor::arange(0, 5, 1);
    assert!(line.flip(&[0])?.is_contiguous());

    let block = Tensor::arange(0, 27, 1).reshape(&[3, 3, 3])?;
    assert!(!block.flip(&[2])?.is_contiguous());

    Ok(())
}

#[test]
fn reduction_shapes() -> Res<()> {
    let a = Tensor::arange(0, 24, 1).reshape(&[2, 3, 4])?;
    let sum = |t: Tensor<i64>| -> Res<i64> { Ok(t.data().iter().sum()) };

    let kept = a.reduce(&[1], sum, true)?;
    assert_eq!(kept.sizes(), &[2, 1, 4]);

    let dropped = a.reduce(&[1], sum, false)?;
    assert_eq!(dropped.sizes(), &[2, 4]);

    // Summing over the middle dimension of `arange` rows:
    // entry (i, k) is sum over j of (12 i + 4 j + k).
    assert_eq!(dropped.data(), vec![12, 15, 18, 21, 48, 51, 54, 57]);
    assert_eq!(kept.data(), dropped.data());

    Ok(())
}

#[test]
fn copy_on_write_isolation() -> Res<()> {
    let a = Tensor::new(&[1, 2, 3, 4], &[2, 2])?;
    let b = a.view(&[4])?;
    assert_eq!(Arc::as_ptr(&a.data), Arc::as_ptr(&b.data));

    let c = b.index_map(|x| x + 100, &[2])?;
    assert_ne!(Arc::as_ptr(&c.data), Arc::as_ptr(&a.data));
    assert_eq!(a.data(), vec![1, 2, 3, 4]);
    assert_eq!(c.data(), vec![1, 2, 103, 4]);

    Ok(())
}

#[test]
fn bounds_checks() -> Res<()> {
    let a = Tensor::arange(0, 5, 1);

    match a.index(&[5]) {
        Err(TensorError::IndexOutOfRange { dimension, index, size }) => {
            assert_eq!((dimension, index, size), (0, 5, 5));
        }
        other => panic!("expected an index failure, got {:?}", other.err()),
    }

    match a.slice(&[(3, 2)]) {
        Err(TensorError::RangeOutOfBounds { dimension, start, end, size }) => {
            assert_eq!((dimension, start, end, size), (0, 3, 2, 5));
        }
        other => panic!("expected a range failure, got {:?}", other.err()),
    }

    Ok(())
}

#[test]
fn matrix_multiply_semantics() -> Res<()> {
    // C[i][j] = sum over k of A[i][k] * B[k][j], built from broadcasting
    // and a trailing-dimension reduction.
    let a = Tensor::arange(0, 6, 1).view(&[2, 3])?;
    let b = Tensor::arange(0, 6, 1).view(&[3, 2])?;

    let a3 = a.reshape(&[2, 3, 1])?;
    let product = a3.zip(&b, |x, y| x * y)?;
    assert_eq!(product.sizes(), &[2, 3, 2]);

    let sum = |t: Tensor<i64>| -> Res<i64> { Ok(t.data().iter().sum()) };
    let c = product.reduce(&[1], sum, false)?;

    assert_eq!(c.sizes(), &[2, 2]);
    assert_eq!(c.data(), vec![10, 13, 28, 40]);

    Ok(())
}
