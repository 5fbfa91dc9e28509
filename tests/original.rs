use leitio::Leitio;

#[test]
fn lib_it_works() {
    let _new_queue: Leitio<usize> = Leitio::new();
}

#[test]
fn lib_try_get_none() {
    let mut new_queue: Leitio<usize> = Leitio::new();
    let found = new_queue.pop();

    assert!(found.is_none())
}

#[test]
fn try_insert() {
    let mut new_queue: Leitio<usize> = Leitio::new();
    let found = new_queue.pop();

    assert!(found.is_none())
}

#[test]
fn lib_try_add() {
    let mut new_queue: Leitio<usize> = Leitio::new();
    new_queue.push(200);
}

#[test]
fn lib_try_add_poll() {
    let mut new_queue: Leitio<usize> = Leitio::new();
    new_queue.push(200);

    let found = new_queue.pop();

    assert_eq!(found.unwrap(), 200);
}

#[test]
fn lib_try_add_many_poll() {
    let mut new_queue: Leitio<usize> = Leitio::new();

    for _i in 0..20 {
        new_queue.push(200);
    }

    for _i in 0..20 {
        let found = new_queue.pop();
        assert_eq!(found.unwrap(), 200);
    }
}

#[test]
fn leitio_try_add_few_poll() {
    let mut new_leitio = Leitio::new();

    for _i in 0..20 {
        new_leitio.push(200);
    }

    for _i in 0..20 {
        let found = new_leitio.pop();
        assert_eq!(found.unwrap(), 200);
    }
}

#[test]
fn leitio_try_add_many_poll() {
    let mut new_leitio = Leitio::new();

    const RUNS: usize = 2_000;

    for _i in 0..RUNS {
        new_leitio.push(200);
    }

    for _i in 0..RUNS {
        let found = new_leitio.pop();
        assert_eq!(found.unwrap(), 200);
    }
}

#[test]
fn try_iter() {
    let mut new_leitio = Leitio::new();

    const RUNS: usize = 2_000;

    const EXPECTED: usize = RUNS * 200;

    for _i in 0..RUNS {
        new_leitio.push(200);
    }

    let count: usize = new_leitio.iter().into_iter().sum();

    assert_eq!(EXPECTED, count);
}
