use sharpen::classify;
use sharpen::classify_as_vec;
use sharpen::classify_::ClassifyIT;
use sharpen::Classify;

#[test]
fn classify__test_clsf0() {
    let input: Vec<u8> = vec![0, 0, 1, 1, 2, 2, 3, 0, 5, 5, 5];
    let res: Vec<_> = classify(input, |&curc| curc);
    assert_eq!(
        res,
        &[
            (0, vec![0, 0]),
            (1, vec![1, 1]),
            (2, vec![2, 2]),
            (3, vec![3]),
            (0, vec![0]),
            (5, vec![5, 5, 5]),
        ]
    );
}

#[test]
fn classify__test_clsf1() {
    let input: Vec<Option<u8>> = vec![
        Some(0),
        Some(1),
        Some(5),
        Some(5),
        None,
        None,
        Some(0),
        None,
    ];
    let res: Vec<_> = classify(input, |curo| curo.is_some());
    assert_eq!(
        res,
        &[
            (true, vec![Some(0), Some(1), Some(5), Some(5)]),
            (false, vec![None, None]),
            (true, vec![Some(0)]),
            (false, vec![None]),
        ]
    );
}

#[test]
fn classify__test_clsf2() {
    let input: Vec<Option<Vec<u8>>> = vec![
        Some(vec![0, 0, 1]),
        Some(vec![0, 1]),
        None,
        None,
        Some(vec![2]),
        None,
    ];
    let res: Vec<_> = classify(input, |curo| curo.is_some());
    assert_eq!(
        res,
        &[
            (true, vec![Some(vec![0, 0, 1]), Some(vec![0, 1])]),
            (false, vec![None, None]),
            (true, vec![Some(vec![2])]),
            (false, vec![None]),
        ]
    );
}

#[test]
fn classify__test_clsfit2() {
    let input: Vec<Option<Vec<u8>>> = vec![
        Some(vec![0, 0, 1]),
        Some(vec![0, 1]),
        None,
        None,
        Some(vec![2]),
        None,
    ];
    let mut it = ClassifyIT::new(input, |curo| curo.is_some());
    let mut res = Vec::new();
    while let Some(run) = it.next() {
        res.push(run);
    }
    assert_eq!(
        res,
        &[
            (true, vec![Some(vec![0, 0, 1]), Some(vec![0, 1])]),
            (false, vec![None, None]),
            (true, vec![Some(vec![2])]),
            (false, vec![None]),
        ]
    );
}

#[test]
fn tests_test_clsf0() {
    let input: Vec<u8> = vec![0, 0, 1, 1, 2, 2, 3, 0, 5, 5, 5];
    let res: Vec<_> = classify(input, |&curc| curc);
    assert_eq!(
        res,
        &[
            (0, vec![0, 0]),
            (1, vec![1, 1]),
            (2, vec![2, 2]),
            (3, vec![3]),
            (0, vec![0]),
            (5, vec![5, 5, 5]),
        ]
    );
}

#[test]
fn tests_test_clsf1() {
    let input: Vec<Option<u8>> = vec![
        Some(0),
        Some(1),
        Some(5),
        Some(5),
        None,
        None,
        Some(0),
        None,
    ];
    let res: Vec<_> = classify(input, |curo| curo.is_some());
    assert_eq!(
        res,
        &[
            (true, vec![Some(0), Some(1), Some(5), Some(5)]),
            (false, vec![None, None]),
            (true, vec![Some(0)]),
            (false, vec![None]),
        ]
    );
}

#[test]
fn tests_test_clsf2() {
    let input: Vec<Option<Vec<u8>>> = vec![
        Some(vec![0, 0, 1]),
        Some(vec![0, 1]),
        None,
        None,
        Some(vec![2]),
        None,
    ];
    let res: Vec<_> = classify(input, |curo| curo.is_some());
    assert_eq!(
        res,
        &[
            (true, vec![Some(vec![0, 0, 1]), Some(vec![0, 1])]),
            (false, vec![None, None]),
            (true, vec![Some(vec![2])]),
            (false, vec![None]),
        ]
    );
}

#[test]
fn tests_test_clsfit2() {
    let input: Vec<Option<Vec<u8>>> = vec![
        Some(vec![0, 0, 1]),
        Some(vec![0, 1]),
        None,
        None,
        Some(vec![2]),
        None,
    ];
    let mut it = ClassifyIT::new(input, |curo| curo.is_some());
    let mut res = Vec::new();
    while let Some(run) = it.next() {
        res.push(run);
    }
    assert_eq!(
        res,
        &[
            (true, vec![Some(vec![0, 0, 1]), Some(vec![0, 1])]),
            (false, vec![None, None]),
            (true, vec![Some(vec![2])]),
            (false, vec![None]),
        ]
    );
}

#[test]
fn test_classify_empty_input() {
    let input: Vec<u8> = vec![];
    let res: Vec<(u8, Vec<u8>)> = classify(input, |&c| c);
    assert_eq!(res, Vec::<(u8, Vec<u8>)>::new());
}

#[test]
fn test_classify_concat_reproduces_input() {
    let input: Vec<u8> = vec![7, 7, 7, 0, 0, 7, 1, 1, 2, 2, 2, 2];
    let res: Vec<(u8, Vec<u8>)> = classify_as_vec(input.clone(), |&c| c);
    let mut flat: Vec<u8> = Vec::new();
    for (key, run) in &res {
        assert!(!run.is_empty());
        for x in run {
            assert_eq!(x, key);
        }
        flat.extend_from_slice(run);
    }
    assert_eq!(flat, input);
    for w in res.windows(2) {
        assert_ne!(w[0].0, w[1].0);
    }
}

#[test]
fn test_classify_trait_and_size_hint() {
    let input: Vec<u8> = vec![1, 1, 2];
    let mut it = input.classify(|&c| c);
    assert_eq!(it.size_hint(), (2, Some(2)));
    assert_eq!(it.next(), Some((1, vec![1, 1])));
    assert_eq!(it.size_hint(), (1, Some(1)));
    assert_eq!(it.next(), Some((2, vec![2])));
    assert_eq!(it.next(), None);
    assert_eq!(it.size_hint(), (0, Some(0)));
}

#[test]
fn test_classify_single_run() {
    let input: Vec<u8> = vec![4, 4, 4];
    let res: Vec<(u8, Vec<u8>)> = classify_as_vec(input, |&c| c);
    assert_eq!(res, vec![(4, vec![4, 4, 4])]);
}
