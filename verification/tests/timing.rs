use std::cell::Cell;

use hutspot::timer::bench;
use hutspot::timer::Timer;

#[test]
fn timer_reports_without_panicking() {
    let mut t = Timer::new();
    t.report("fresh");
    t.reset();
    t.report("reset");
}

#[test]
fn bench_calls_the_function_once_per_iteration() {
    let count = Cell::new(0usize);
    let sum = Cell::new(0usize);
    bench(
        |i| {
            count.set(count.get() + 1);
            sum.set(sum.get() + i);
        },
        "counting",
        5,
    );
    assert_eq!(count.get(), 5);
    assert_eq!(sum.get(), 0 + 1 + 2 + 3 + 4);
}

#[test]
fn bench_with_no_iterations_only_reports() {
    bench(|_| panic!("never called"), "idle", 0);
}
