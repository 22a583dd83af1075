# brutal

The Brutal congestion controller, verified with Verus.

Brutal is a bandwidth-driven congestion controller for paths with a high loss rate. It is told
a target bandwidth and keeps to it: the window is

    target_bps * rtt * 2 / ack_rate

and the pacing rate is `8 * target_bps / ack_rate` bits per second, where `ack_rate` is the
share of the packets of the last seconds that were acknowledged, but not less than a floor.
The window is never below four packets. When packets are lost, the controller sends more, not less. It is not TCP-friendly and is meant
for paths whose bandwidth is known and dedicated.

## Layout

- `src/controller.rs`, `src/config.rs`, `src/time.rs`: the controller, its configuration, and
  the spans and points of time that it is given.
- `src/model.rs`: the controller as a mathematical object, which the contracts speak of.
- `src/history.rs`: what a sequence of events leads to, and which packets the sample of the
  ack rate holds.
- `src/sampling.rs`: what the ack rate of a set of slots depends on.
- `src/laws.rs`: what holds of the controller in every state.
- `src/accuracy.rs`: how near the window and the pace come to their formulas.
- `src/datum.rs`: what IEEE 754 binary64 numbers are, and what arithmetic on them returns.
- `src/binary64.rs`: these numbers in bits, with arithmetic in integers that is proved to round
  as IEEE 754 says. `tests/arithmetic.rs` compares it with the arithmetic of the machine: the
  bits are the same, except that any NaN stands for any other.
- `src/rounding.rs`, `src/packing.rs`, `src/order.rs`: facts about rounding.
- `app/`: the controller behind the interface of a transport, with the clock and the floating
  point numbers of the machine.
