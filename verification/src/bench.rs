//! Desk test benches for the vendored drivers: what a motor channel's pins
//! read as, in words.
use vstd::prelude::*;

use crate::text::{decimal, push_decimal, decimal_len};

verus! {

/// The observable state of one motor channel: its two direction pins and
/// its PWM duty (out of 255).
pub struct Channel {
    pub in1: bool,
    pub in2: bool,
    pub duty: u16,
}

/// What the direction pins mean: forward, reverse, coast or brake (padded
/// to one width).
pub open spec fn direction_text(in1: bool, in2: bool) -> Seq<char> {
    match (in1, in2) {
        (true, false) => "forward"@,
        (false, true) => "reverse"@,
        (false, false) => "coast  "@,
        (true, true) => "brake  "@,
    }
}

/// `n` in decimal, right-aligned in `width` columns with spaces.
pub open spec fn right_aligned(n: nat, width: nat) -> Seq<char> {
    let d = decimal(n);
    if d.len() >= width { d } else { Seq::new((width - d.len()) as nat, |i: int| ' ') + d }
}

impl Channel {
    /// The channel as one line: direction, then the duty right-aligned in
    /// three columns, out of 255.
    pub fn describe(&self) -> (res: String)
        ensures
            res@ == direction_text(self.in1, self.in2) + " duty "@ + right_aligned(self.duty as nat, 3) + "/255"@,
    {
        let mut out = String::new();
        match (self.in1, self.in2) {
            (true, false) => out.push_str("forward"),
            (false, true) => out.push_str("reverse"),
            (false, false) => out.push_str("coast  "),
            (true, true) => out.push_str("brake  "),
        }
        out.push_str(" duty ");
        let ghost head = out@;
        let len = decimal_len(self.duty as u64);
        let mut k: usize = len;
        while k < 3
            invariant
                len <= k,
                len < 3 ==> k <= 3,
                len >= 3 ==> k == len,
                len == decimal(self.duty as nat).len(),
                out@ == head + Seq::new((k - len) as nat, |i: int| ' '),
            decreases 3 - k,
        {
            out.push(' ');
            assert(out@ =~= head + Seq::new((k + 1 - len) as nat, |i: int| ' '));
            k = k + 1;
        }
        push_decimal(&mut out, self.duty as u64);
        out.push_str("/255");
        proof {
            if len >= 3 {
                assert(k == len);
                assert(Seq::new((k - len) as nat, |i: int| ' ') =~= Seq::<char>::empty());
            }
            assert(out@ =~= direction_text(self.in1, self.in2) + " duty "@ + right_aligned(self.duty as nat, 3) + "/255"@);
        }
        out
    }
}

} // verus!
