//! Shapes, strides, walks over index boxes, names and errors.

use gtensor::device::Device;
use gtensor::dtype::Dtype;
use gtensor::error::{kind_name, Error, ErrorKind};
use gtensor::matmul::{batch_index_to_src, blas_layout};
use gtensor::shape::{
    broadcast_shapes, broadcast_strides, for_each_index, for_each_offset, for_each_run,
    is_contiguous, normalize_axis, numel, offset_of, resolve_reshape, row_major_strides,
    saturating_times,
};
use gtensor::text::{push_list, push_signed, with_two_numbers};
use gtensor::views::slice_axis;

#[test]
fn broadcast_zero_with_one() {
    assert_eq!(broadcast_shapes(&[0, 3], &[1, 3]).unwrap(), vec![0, 3]);
}

#[test]
fn broadcast_incompatible() {
    assert!(broadcast_shapes(&[2, 3], &[3, 2]).is_err());
}

#[test]
fn reshape_infer_empty() {
    assert_eq!(
        resolve_reshape(&[0, 3], &[0, -1], "reshape").unwrap(),
        vec![0, 3]
    );
}

#[test]
fn broadcast_pads_on_the_left() {
    assert_eq!(
        broadcast_shapes(&[4, 1, 5], &[3, 1]).unwrap(),
        vec![4, 3, 5]
    );
    assert_eq!(broadcast_shapes(&[], &[2]).unwrap(), vec![2]);
    let e = broadcast_shapes(&[2, 3], &[3, 2]).unwrap_err();
    assert_eq!(e.kind, ErrorKind::Shape);
    assert_eq!(
        e.describe(),
        "shape error in broadcast: incompatible [2, 3] vs [3, 2]"
    );
}

#[test]
fn volumes() {
    assert_eq!(numel(&[]).unwrap(), 1);
    assert_eq!(numel(&[2, 3, 4]).unwrap(), 24);
    assert_eq!(numel(&[2, 0, 4]).unwrap(), 0);
    let e = numel(&[usize::MAX, 2]).unwrap_err();
    assert_eq!(
        e.describe(),
        "shape error in numel: shape volume overflow"
    );
}

#[test]
fn strides_of_row_major_order() {
    assert_eq!(row_major_strides(&[2, 3, 4]), vec![12, 4, 1]);
    assert_eq!(row_major_strides(&[]), Vec::<isize>::new());
    assert!(is_contiguous(&[2, 3], &[3, 1], 0));
    assert!(!is_contiguous(&[2, 3], &[1, 2], 0));
    assert!(!is_contiguous(&[2, 3], &[3, 1], 1));
}

#[test]
fn strides_of_a_broadcast_vanish() {
    assert_eq!(
        broadcast_strides(&[2, 1], &[1, 1], &[4, 2, 3]).unwrap(),
        vec![0, 1, 0]
    );
    assert!(broadcast_strides(&[2], &[1], &[3]).is_err());
}

#[test]
fn axes_count_from_the_end() {
    assert_eq!(normalize_axis(-1, 3, "sum").unwrap(), 2);
    assert_eq!(normalize_axis(1, 3, "sum").unwrap(), 1);
    let e = normalize_axis(-4, 3, "sum").unwrap_err();
    assert_eq!(e.describe(), "shape error in sum: axis -4 out of rank 3");
    assert!(normalize_axis(3, 3, "sum").is_err());
}

#[test]
fn places_in_storage() {
    assert_eq!(offset_of(&[1, 2], 5, &[10, -1]), 13);
    assert_eq!(saturating_times(usize::MAX, 2), usize::MAX);
    assert_eq!(saturating_times(6, 7), 42);
}

#[test]
fn reshapes_refused() {
    let said = |old: &[usize], new: &[isize]| resolve_reshape(old, new, "view").unwrap_err().message;
    assert_eq!(said(&[4], &[-1, -1]), "only one -1 is allowed");
    assert_eq!(said(&[4], &[-2]), "negative dimension other than -1");
    assert_eq!(
        said(&[4], &[isize::MAX, 4]),
        "reshape overflow"
    );
    assert_eq!(
        said(&[4], &[0, -1]),
        "cannot infer -1 with a zero dimension"
    );
    assert_eq!(
        said(&[4], &[2, 3]),
        "reshape numel mismatch: 4 vs 6"
    );
    assert!(resolve_reshape(&[4], &[3, -1], "view").is_err());
    assert_eq!(resolve_reshape(&[4, 3], &[2, -1], "view").unwrap(), vec![2, 6]);
}

#[test]
fn walks_in_row_major_order() {
    assert_eq!(
        for_each_index(&[2, 2], |i| (i[0], i[1])),
        vec![(0, 0), (0, 1), (1, 0), (1, 1)]
    );
    assert_eq!(for_each_index(&[], |i| i.len()), vec![0]);
    assert_eq!(for_each_index(&[2, 0], |i| i.len()), Vec::<usize>::new());
    assert_eq!(
        for_each_offset(1, &[2, 3], &[1, 2], |o| o),
        vec![1, 3, 5, 2, 4, 6]
    );
    assert_eq!(for_each_offset(4, &[], &[], |o| o), vec![4]);
}

#[test]
fn runs_are_as_long_as_the_layout_allows() {
    assert_eq!(
        for_each_run(0, &[2, 3, 4], &[12, 4, 1], |a, n| (a, n)),
        vec![(0, 24)]
    );
    assert_eq!(
        for_each_run(2, &[2, 4], &[8, 1], |a, n| (a, n)),
        vec![(2, 4), (10, 4)]
    );
    assert_eq!(
        for_each_run(0, &[2, 2], &[1, 2], |a, n| (a, n)),
        vec![(0, 1), (2, 1), (1, 1), (3, 1)]
    );
    // An axis of size one does not end a run.
    assert_eq!(
        for_each_run(0, &[2, 1], &[1, 0], |a, n| (a, n)),
        vec![(0, 2)]
    );
    assert_eq!(
        for_each_run(3, &[2, 1, 3], &[3, 7, 1], |a, n| (a, n)),
        vec![(3, 6)]
    );
    assert_eq!(
        for_each_run(5, &[2, 3], &row_major_strides(&[2, 3]), |a, n| (a, n)),
        vec![(5, 6)]
    );
    assert!(for_each_run(0, &[2, 0], &[1, 1], |a, n| (a, n)).is_empty());
    assert_eq!(for_each_run(3, &[], &[], |a, n| (a, n)), vec![(3, 1)]);
}

#[test]
fn a_slice_of_an_axis() {
    // The first index, the number of indices and the step.
    assert_eq!(slice_axis(5, (Some(1), Some(4), None)), (1, 3, 1));
    assert_eq!(slice_axis(5, (None, None, Some(2))), (0, 3, 2));
    assert_eq!(slice_axis(5, (Some(-2), None, None)), (3, 2, 1));
}

#[test]
fn batches_of_a_broadcast_product() {
    assert_eq!(batch_index_to_src(3, &[2, 2], &[1, 2]), 1);
    assert_eq!(batch_index_to_src(3, &[2, 2], &[2, 1]), 1);
    assert_eq!(batch_index_to_src(3, &[2, 2], &[]), 0);
}

#[test]
fn layouts_that_blas_reads() {
    assert_eq!(blas_layout(&[2, 3], &[3, 1]), Some((false, 3)));
    assert_eq!(blas_layout(&[2, 3], &[1, 2]), Some((true, 2)));
    assert_eq!(blas_layout(&[2, 3], &[6, 2]), None);
}

#[test]
fn names_of_types_and_places() {
    assert_eq!(
        [Dtype::F32, Dtype::F64, Dtype::I64].map(|d| d.name()),
        ["f32", "f64", "i64"]
    );
    assert_eq!(
        [Dtype::F32, Dtype::F64, Dtype::I64].map(|d| d.size_of()),
        [4, 8, 8]
    );
    assert!(Dtype::F32.is_float() && Dtype::F64.is_float() && !Dtype::I64.is_float());
    assert_eq!([Device::Cpu, Device::Gpu].map(|d| d.name()), ["cpu", "gpu"]);
}

#[test]
fn errors_name_their_class_and_op() {
    let kinds = [
        (ErrorKind::Shape, "shape"),
        (ErrorKind::Dtype, "dtype"),
        (ErrorKind::Device, "device"),
        (ErrorKind::NotUnique, "not-unique"),
        (ErrorKind::Overlap, "overlap"),
        (ErrorKind::Unsupported, "unsupported"),
        (ErrorKind::BackendPrecheck, "backend-precheck"),
        (ErrorKind::Index, "index"),
        (ErrorKind::Domain, "domain"),
    ];
    for (kind, name) in kinds {
        assert_eq!(kind_name(kind), name);
        let e = Error::new(kind, "op", "why".to_owned());
        assert_eq!(e.describe(), format!("{name} error in op: why"));
    }
    assert_eq!(Error::shape("op", String::new()).kind, ErrorKind::Shape);
    assert_eq!(Error::dtype("op", String::new()).kind, ErrorKind::Dtype);
    assert_eq!(Error::device("op", String::new()).kind, ErrorKind::Device);
    assert_eq!(Error::index("op", String::new()).kind, ErrorKind::Index);
    let e = Error::unsupported("op", Dtype::I64, Device::Gpu, "no".to_owned());
    assert_eq!(
        e.describe(),
        "unsupported error in op: dtype=I64 device=Gpu: no"
    );
}

#[test]
fn numbers_in_messages() {
    let mut s = String::new();
    push_list(&mut s, &[10, 0, 7]);
    assert_eq!(s, "[10, 0, 7]");
    push_list(&mut s, &[]);
    assert_eq!(s, "[10, 0, 7][]");
    let mut n = String::new();
    push_signed(&mut n, isize::MIN);
    assert_eq!(n, isize::MIN.to_string());
    assert_eq!(with_two_numbers("a ", 12, " b ", 305), "a 12 b 305");
}
