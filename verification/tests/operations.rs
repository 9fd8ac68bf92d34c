use venum::{Res, Stride, Tensor, TensorError};

#[test]
fn constructors_exact_values() -> Res<()> {
    let a = Tensor::arange(0, 10, 3);
    assert_eq!(a.data(), vec![0, 3, 6, 9]);
    assert_eq!(a.sizes(), &[4]);

    let empty_range = Tensor::arange(5, 3, 1);
    assert_eq!(empty_range.data(), vec![5]);

    let l = Tensor::linspace(0, 9, 4);
    assert_eq!(l.data(), vec![0, 3, 6, 9]);

    let e = Tensor::eye(3);
    assert_eq!(e.sizes(), &[3, 3]);
    assert_eq!(e.data(), vec![1, 0, 0, 0, 1, 0, 0, 0, 1]);

    let z = Tensor::zeroes(3);
    assert_eq!(z.data(), vec![0, 0, 0]);
    let o = Tensor::ones(2);
    assert_eq!(o.data(), vec![1, 1]);

    let s = Tensor::scalar(7);
    assert_eq!(s.sizes(), &[1]);
    assert_eq!(s.data(), vec![7]);

    let m = Tensor::same(4, 3);
    assert_eq!(m.data(), vec![4, 4, 4]);

    let one = Tensor::new_1d(&[9, 8, 7]);
    assert_eq!(one.sizes(), &[3]);
    assert_eq!(one.index(&[1])?, 8);

    Ok(())
}

#[test]
fn construction_validation() {
    match Tensor::new(&[1, 2, 3], &[2, 2]) {
        Err(TensorError::DataLengthMismatch { data_length, tensor_size }) => {
            assert_eq!((data_length, tensor_size), (3, 4));
        }
        other => panic!("expected a length failure, got {:?}", other.err()),
    }
}

#[test]
fn view_layout_validation() -> Res<()> {
    let a = Tensor::arange(0, 6, 1).reshape(&[2, 3])?;

    match a.view(&[4]) {
        Err(TensorError::ReshapeMismatch { data_length, new_length }) => {
            assert_eq!((data_length, new_length), (6, 4));
        }
        other => panic!("expected a reshape failure, got {:?}", other.err()),
    }

    // A permuted layout cannot be reinterpreted without copying, but the
    // general-purpose reshape still succeeds by materializing.
    let t = a.transpose(0, 1)?;
    assert!(t.view(&[6]).is_err());
    let flat = t.view_else_reshape(&[6])?;
    assert_eq!(flat.data(), vec![0, 3, 1, 4, 2, 5]);

    Ok(())
}

#[test]
fn permute_and_flip_validation() -> Res<()> {
    let a = Tensor::arange(0, 6, 1).reshape(&[2, 3])?;

    match a.permute(&[0, 0]) {
        Err(TensorError::DuplicateDimension { dimension }) => assert_eq!(dimension, 0),
        other => panic!("expected a duplicate failure, got {:?}", other.err()),
    }
    match a.flip(&[1, 1]) {
        Err(TensorError::DuplicateDimension { dimension }) => assert_eq!(dimension, 1),
        other => panic!("expected a duplicate failure, got {:?}", other.err()),
    }
    match a.expand(&[2, 4]) {
        Err(TensorError::IncompatibleExpansion { dimension, size, target }) => {
            assert_eq!((dimension, size, target), (1, 3, 4));
        }
        other => panic!("expected an expansion failure, got {:?}", other.err()),
    }
    match a.index(&[1]) {
        Err(TensorError::DimensionCountMismatch { provided, expected }) => {
            assert_eq!((provided, expected), (1, 2));
        }
        other => panic!("expected a rank failure, got {:?}", other.err()),
    }

    Ok(())
}

#[test]
fn data_of_strided_views() -> Res<()> {
    let a = Tensor::arange(0, 6, 1).reshape(&[2, 3])?;

    let t = a.transpose(0, 1)?;
    assert_eq!(t.sizes(), &[3, 2]);
    assert_eq!(t.data(), vec![0, 3, 1, 4, 2, 5]);

    let f = a.flip(&[1])?;
    assert_eq!(f.data(), vec![2, 1, 0, 5, 4, 3]);

    let s = a.slice(&[(0, 2), (1, 3)])?;
    assert_eq!(s.sizes(), &[2, 2]);
    assert_eq!(s.data(), vec![1, 2, 4, 5]);

    let c = f.to_contiguous()?;
    assert!(c.is_contiguous());
    assert_eq!(c.data(), vec![2, 1, 0, 5, 4, 3]);
    assert_eq!(c.offset(), 0);

    Ok(())
}

#[test]
fn expand_broadcasts_without_copying() -> Res<()> {
    let a = Tensor::new(&[10, 20], &[2, 1])?;
    let e = a.expand(&[2, 3])?;
    assert_eq!(e.sizes(), &[2, 3]);
    assert_eq!(e.data(), vec![10, 10, 10, 20, 20, 20]);
    assert!(matches!(e.strides()[1], Stride::Positive(0)));

    Ok(())
}

#[test]
fn squeeze_and_unsqueeze() -> Res<()> {
    let a = Tensor::arange(0, 6, 1).reshape(&[1, 2, 1, 3])?;
    let s = a.squeeze()?;
    assert_eq!(s.sizes(), &[2, 3]);
    assert_eq!(s.data(), vec![0, 1, 2, 3, 4, 5]);

    let one = Tensor::scalar(5);
    let collapsed = one.squeeze()?;
    assert_eq!(collapsed.sizes(), &[1]);

    let u = s.unsqueeze(4)?;
    assert_eq!(u.sizes(), &[1, 1, 2, 3]);
    assert_eq!(u.data(), vec![0, 1, 2, 3, 4, 5]);

    Ok(())
}

#[test]
fn elementwise_maps() -> Res<()> {
    let a = Tensor::arange(0, 4, 1);

    let doubled = a.unary_map(|x| x * 2)?;
    assert_eq!(doubled.data(), vec![0, 2, 4, 6]);

    let shifted = a.binary_map(10, |x, y| x + y)?;
    assert_eq!(shifted.data(), vec![10, 11, 12, 13]);

    let b = Tensor::arange(0, 4, 1);
    let paired = a.zip(&b, |x, y| x * y)?;
    assert_eq!(paired.data(), vec![0, 1, 4, 9]);

    let arrayed = a.zip_array(&[5, 6, 7, 8], |x, y| x + y)?;
    assert_eq!(arrayed.data(), vec![5, 7, 9, 11]);

    match a.zip_array(&[1, 2], |x, y| x + y) {
        Err(TensorError::DataLengthMismatch { data_length, tensor_size }) => {
            assert_eq!((data_length, tensor_size), (2, 4));
        }
        other => panic!("expected a length failure, got {:?}", other.err()),
    }

    Ok(())
}

#[test]
fn zip_broadcasts_operands() -> Res<()> {
    let col = Tensor::new(&[1, 2, 3], &[3, 1])?;
    let row = Tensor::new(&[10, 20], &[1, 2])?;
    let grid = col.zip(&row, |x, y| x + y)?;
    assert_eq!(grid.sizes(), &[3, 2]);
    assert_eq!(grid.data(), vec![11, 21, 12, 22, 13, 23]);

    Ok(())
}

#[test]
fn indexed_reads() -> Res<()> {
    let a = Tensor::arange(0, 24, 1).reshape(&[2, 3, 4])?;
    assert_eq!(a.index(&[1, 2, 3])?, 23);
    assert_eq!(a.index(&[0, 1, 2])?, 6);
    assert_eq!(a.index_dims(&[2, 0], &[3, 1])?, 15);

    let f = a.flip(&[2])?;
    assert_eq!(f.index(&[0, 0, 0])?, 3);

    Ok(())
}

#[test]
fn region_maps_and_zips() -> Res<()> {
    let a = Tensor::arange(0, 9, 1).reshape(&[3, 3])?;

    let masked = a.slice_map(|x| -x, &[(0, 2), (1, 3)])?;
    assert_eq!(masked.data(), vec![0, -1, -2, 3, -4, -5, 6, 7, 8]);

    let stitched = a.slice_zip(&[100, 200, 300], |_, new| new, &[(1, 2)])?;
    assert_eq!(stitched.data(), vec![0, 1, 2, 100, 200, 300, 6, 7, 8]);

    let by_dim = a.slice_map_dims(|x| x + 1, &[1], &[(2, 3)])?;
    assert_eq!(by_dim.data(), vec![0, 1, 3, 3, 4, 6, 6, 7, 9]);

    let zipped_dim = a.slice_zip_dims(&[7, 8, 9], |x, y| x * y, &[1], &[(0, 1)])?;
    assert_eq!(zipped_dim.data(), vec![0, 1, 2, 24, 4, 5, 54, 7, 8]);

    let pointed = a.index_map_dims(|x| x + 50, &[0, 1], &[2, 2])?;
    assert_eq!(pointed.data(), vec![0, 1, 2, 3, 4, 5, 6, 7, 58]);

    Ok(())
}

#[test]
fn padding_surrounds_contents() -> Res<()> {
    let a = Tensor::new(&[1, 2, 3, 4], &[2, 2])?;
    let p = a.pad(0, &[(1, 1), (1, 1)])?;
    assert_eq!(p.sizes(), &[4, 4]);
    assert_eq!(
        p.data(),
        vec![0, 0, 0, 0, 0, 1, 2, 0, 0, 3, 4, 0, 0, 0, 0, 0],
    );

    let q = a.pad_dims(9, &[1], &[(2, 0)])?;
    assert_eq!(q.sizes(), &[2, 4]);
    assert_eq!(q.data(), vec![9, 9, 1, 2, 9, 9, 3, 4]);

    Ok(())
}

#[test]
fn ravel_and_flatten() -> Res<()> {
    let a = Tensor::arange(0, 6, 1).reshape(&[2, 3])?;
    assert_eq!(a.ravel()?.sizes(), &[6]);
    assert_eq!(a.ravel()?.data(), vec![0, 1, 2, 3, 4, 5]);

    let t = a.transpose(0, 1)?;
    assert_eq!(t.flatten()?.data(), vec![0, 3, 1, 4, 2, 5]);

    let attrs = (a.numel(), a.ndims(), a.offset());
    assert_eq!(attrs, (6, 2, 0));
    assert!(matches!(a.strides()[0], Stride::Positive(3)));
    assert!(matches!(a.strides()[1], Stride::Positive(1)));

    Ok(())
}
