use core::ops::BitOrAssign;
use http::TickResult;

fn merged(a: TickResult, b: TickResult) -> TickResult {
    let mut r = a;
    r.bitor_assign(b);
    r
}

#[test]
fn graver_one_counts() {
    let all = [TickResult::Idle, TickResult::Busy, TickResult::Error];
    for (i, a) in all.iter().enumerate() {
        for (j, b) in all.iter().enumerate() {
            assert_eq!(merged(*a, *b), all[i.max(j)]);
            assert_eq!(merged(*a, *b), merged(*b, *a));
            for c in all.iter() {
                assert_eq!(merged(merged(*a, *b), *c), merged(*a, merged(*b, *c)));
            }
        }
    }
}

#[test]
fn to_busy_and_to_error() {
    let mut tick = TickResult::Idle;
    tick.to_busy();
    assert_eq!(tick, TickResult::Busy);
    tick.to_error();
    assert_eq!(tick, TickResult::Error);
    tick.to_busy();
    assert_eq!(tick, TickResult::Error);
}
