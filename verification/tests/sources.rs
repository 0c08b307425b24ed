use paranocrypt::parano::entropy::Entropy;
use paranocrypt::parano::random::Random;

struct Counter {
    next: u64,
    left: usize,
}

impl Entropy for Counter {
    type Error = &'static str;
    // The record of outcomes is ghost state; this plain implementation is
    // never verified, so it has none.
    fn obtained(&self) -> vstd::seq::Seq<Result<u64, &'static str>> {
        unreachable!()
    }
    fn obtain_u64(&mut self) -> Result<u64, &'static str> {
        if self.left == 0 {
            return Err("exhausted");
        }
        self.left -= 1;
        self.next += 1;
        Ok(self.next)
    }
}

impl Random for Counter {
    type Error = &'static str;
    // The record of outcomes is ghost state, as above.
    fn drawn(&self) -> vstd::seq::Seq<Result<u64, &'static str>> {
        unreachable!()
    }
    fn random_u64(&mut self) -> Result<u64, &'static str> {
        if self.left == 0 {
            return Err("exhausted");
        }
        self.left -= 1;
        self.next *= 3;
        Ok(self.next)
    }
}

#[test]
fn obtain_quad_in_order() {
    let mut c = Counter { next: 10, left: 9 };
    assert_eq!(c.obtain_quad(), Ok([11, 12, 13, 14]));
    assert_eq!(c.obtain_quad(), Ok([15, 16, 17, 18]));
    assert_eq!(c.obtain_quad(), Err("exhausted"));
    assert_eq!(c.next, 19);
}

#[test]
fn random_quad_in_order() {
    let mut c = Counter { next: 1, left: 6 };
    assert_eq!(c.random_quad(), Ok([3, 9, 27, 81]));
    assert_eq!(c.random_quad(), Err("exhausted"));
    assert_eq!(c.next, 729);
}
