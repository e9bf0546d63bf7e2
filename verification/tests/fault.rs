use jos_core::fault::{FaultConfig, FaultInjector, FaultKind, SmallOpVec, DELAY_MAX, DELIVER_MAX};
use jos_core::rng::{KernelRng, SimRng};
use jos_core::trace::{CapOp, ObjectToken};
use jos_core::cap_rights::Rights;

fn an_insert() -> CapOp {
    CapOp::Insert {
        object: ObjectToken(1),
        rights: Rights::all(),
    }
}

#[test]
fn new_rejects_oversaturated_config() {
    assert!(FaultConfig::new(400, 400, 200, 1, 4).is_none());
    assert!(FaultConfig::new(250, 250, 250, 250, 4).is_some()); // sums to 1000
    assert!(FaultConfig::new(0, 0, 0, 0, 1).is_some());
}

#[test]
fn presets_are_valid() {
    assert!(FaultConfig::clear_sky().fault_weight_sum() <= 1000);
    assert!(FaultConfig::stormy().fault_weight_sum() <= 1000);
    assert!(FaultConfig::apocalyptic().fault_weight_sum() <= 1000);
}

#[test]
fn clear_sky_is_pure_passthrough() {
    let mut inj = FaultInjector::new(FaultConfig::clear_sky());
    let mut rng = SimRng::new(123);
    for _ in 0..1000 {
        let out = inj.process(an_insert(), &mut rng);
        assert_eq!(out.len(), 1, "CLEAR_SKY must deliver each op exactly once");
        assert_eq!(out.iter().next(), Some(&an_insert()));
    }
}

#[test]
fn process_never_exceeds_deliver_max() {
    // hammer the injector under the most aggressive preset and confirm a
    // single step never returns more than DELIVER_MAX ops (the SmallOpVec
    // bound, and the no-lost-op property of the delay queue).
    let mut inj = FaultInjector::new(FaultConfig::apocalyptic());
    let mut rng = SimRng::new(7);
    for _ in 0..20_000 {
        let out = inj.process(an_insert(), &mut rng);
        assert!(out.len() <= DELIVER_MAX);
    }
}

#[test]
fn dropped_and_delayed_reduce_immediate_delivery() {
    // under Stormy, over many steps, strictly fewer ops come out than go in
    // on the immediate path (some are dropped, some buffered), proving the
    // faults actually fire.
    let mut inj = FaultInjector::new(FaultConfig::stormy());
    let mut rng = SimRng::new(2024);
    let steps = 5000;
    let mut delivered = 0usize;
    for _ in 0..steps {
        delivered += inj.process(an_insert(), &mut rng).len();
    }
    // drops remove ops, so total delivered is below the input count even
    // accounting for the duplicates that add some back.
    assert!(delivered < steps, "expected drops to reduce delivery: {delivered} of {steps}");
    assert!(delivered > steps / 2, "delivery collapsed unexpectedly: {delivered}");
}

#[test]
fn corrupt_op_keeps_the_variant_but_changes_a_field() {
    // corruption preserves the operation KIND (a corrupted Insert is still
    // an Insert) but, over many samples, changes a field at least sometimes.
    let mut rng = SimRng::new(99);
    let original = an_insert();
    let mut any_changed = false;
    for _ in 0..200 {
        let c = FaultInjector::corrupt_op(original, &mut rng);
        assert!(matches!(c, CapOp::Insert { .. }), "kind must be preserved");
        if c != original {
            any_changed = true;
        }
    }
    assert!(any_changed, "corruption never changed the op");
}

#[test]
fn delayed_ops_are_eventually_released_not_lost() {
    // feed one op that gets delayed, then idle the injector (feeding drops
    // only would still flush the queue). count total deliveries: the delayed
    // op must come out. use a delay-only config so nothing is dropped.
    let cfg = FaultConfig::new(0, 1000, 0, 0, u8::try_from(DELAY_MAX).unwrap()).unwrap();
    let mut inj = FaultInjector::new(cfg);
    let mut rng = SimRng::new(55);
    let mut total = 0usize;
    // every op is delayed; over enough steps, everything buffered is
    // eventually released, so deliveries track inputs minus what is still
    // in flight (at most DELAY_MAX).
    let steps = 100;
    for _ in 0..steps {
        total += inj.process(an_insert(), &mut rng).len();
    }
    // drain: keep flushing with a no-op-but-droppable feed is not possible
    // (every feed is delayed too), so just assert most were delivered and
    // the queue never lost more than its capacity.
    assert!(total >= steps - DELAY_MAX, "delayed ops were lost: {total} of {steps}");
    assert!(total <= steps, "more ops delivered than submitted: {total}");
}

#[test]
fn small_op_vec_push_and_iter() {
    let mut v = SmallOpVec::new();
    assert!(v.is_empty());
    v.push(an_insert());
    v.push(CapOp::Remove { slot: 3 });
    assert_eq!(v.len(), 2);
    let collected: Vec<CapOp> = v.iter().copied().collect();
    assert_eq!(collected, vec![an_insert(), CapOp::Remove { slot: 3 }]);
}

#[test]
fn injector_is_deterministic() {
    // the realized stream is a pure function of the seed: two injectors fed
    // the same ops with same-seeded rngs produce identical output.
    let run = |seed: u64| -> Vec<usize> {
        let mut inj = FaultInjector::new(FaultConfig::apocalyptic());
        let mut rng = SimRng::new(seed);
        (0..500).map(|_| inj.process(an_insert(), &mut rng).len()).collect()
    };
    assert_eq!(run(42), run(42));
}

#[test]
fn the_weights_cut_up_the_roll() {
    let config = FaultConfig::new(10, 20, 30, 40, 2).unwrap();
    assert_eq!(config.fault_weight_sum(), 100);
    for (roll, fault) in [
        (0, Some(FaultKind::Drop)),
        (9, Some(FaultKind::Drop)),
        (10, Some(FaultKind::Delay)),
        (29, Some(FaultKind::Delay)),
        (30, Some(FaultKind::Duplicate)),
        (59, Some(FaultKind::Duplicate)),
        (60, Some(FaultKind::CorruptOp)),
        (99, Some(FaultKind::CorruptOp)),
        (100, None),
        (999, None),
    ] {
        assert_eq!(config.fault_for(roll), fault);
    }
}

#[test]
fn the_weight_bound_is_exact() {
    assert!(FaultConfig::new(250, 250, 250, 250, 1).is_some());
    assert!(FaultConfig::new(250, 250, 250, 251, 1).is_none());
    assert!(FaultConfig::new(u16::MAX, u16::MAX, u16::MAX, u16::MAX, 1).is_none());
}

#[test]
fn duplicates_are_delivered_back_to_back() {
    let mut inj = FaultInjector::new(FaultConfig::new(0, 0, 1000, 0, 1).unwrap());
    let mut rng = SimRng::new(3);
    let out = inj.process(an_insert(), &mut rng);
    assert_eq!(out.iter().copied().collect::<Vec<_>>(), vec![an_insert(), an_insert()]);
}

#[test]
fn a_one_step_delay_swaps_in_the_previous_op() {
    let mut inj = FaultInjector::new(FaultConfig::new(0, 1000, 0, 0, 0).unwrap());
    let mut rng = SimRng::new(3);
    let op = |slot: u32| CapOp::Remove { slot };
    assert!(inj.process(op(0), &mut rng).is_empty());
    for slot in 1..10 {
        let out = inj.process(op(slot), &mut rng);
        assert_eq!(out.iter().copied().collect::<Vec<_>>(), vec![op(slot - 1)]);
    }
    assert_eq!(inj.config().max_delay_steps, 0);
}

#[test]
fn a_full_delay_queue_passes_ops_through() {
    let mut inj = FaultInjector::new(FaultConfig::new(0, 1000, 0, 0, 255).unwrap());
    let mut rng = SimRng::new(11);
    let mut delivered = 0;
    for slot in 0..200u32 {
        let out = inj.process(CapOp::Remove { slot }, &mut rng);
        delivered += out.len();
        // what is neither delivered nor withheld would be lost.
        assert!(usize::try_from(slot).unwrap() + 1 - delivered <= DELAY_MAX);
    }
}

// replays the given words in order.
struct Words(Vec<u64>);

impl KernelRng for Words {
    fn next_u64(&mut self) -> u64 {
        self.0.remove(0)
    }
}

#[test]
fn corruption_follows_the_words_drawn() {
    let check = CapOp::Check { slot: 3, required: Rights::read() };
    // an odd first word picks the slot, which takes the low half of the next one.
    let mut rng = Words(vec![1, 0x1234_5678_9ABC_DEF0]);
    assert_eq!(
        FaultInjector::corrupt_op(check, &mut rng),
        CapOp::Check { slot: 0x9ABC_DEF0, required: Rights::read() },
    );
    // an even one picks the rights, of which the top four bits of the next choose.
    let mut rng = Words(vec![2, 0xA000_0000_0000_0000]);
    assert_eq!(
        FaultInjector::corrupt_op(check, &mut rng),
        CapOp::Check { slot: 3, required: Rights::from_bits_truncate(0xA) },
    );
    let mut rng = Words(vec![0, 77]);
    assert_eq!(
        FaultInjector::corrupt_op(CapOp::Insert { object: ObjectToken(1), rights: Rights::all() }, &mut rng),
        CapOp::Insert { object: ObjectToken(77), rights: Rights::all() },
    );
    let mut rng = Words(vec![u64::MAX]);
    assert_eq!(
        FaultInjector::corrupt_op(CapOp::Revoke { slot: 0 }, &mut rng),
        CapOp::Revoke { slot: u32::MAX },
    );
    assert!(rng.0.is_empty());
}

#[test]
fn a_full_vector_holds_its_capacity() {
    let mut v = SmallOpVec::default();
    assert!(v.is_empty());
    for slot in 0..6 {
        v.push(CapOp::Remove { slot });
    }
    assert_eq!(v.len(), DELIVER_MAX);
    assert_eq!(v.iter().count(), 6);
}

#[test]
fn delays_only_reorder() {
    let mut inj = FaultInjector::new(FaultConfig::new(0, 600, 0, 0, 4).unwrap());
    let mut rng = SimRng::new(5);
    let mut delivered = Vec::new();
    for slot in 0..300u32 {
        for op in inj.process(CapOp::Remove { slot }, &mut rng).iter() {
            delivered.push(*op);
        }
    }
    assert!(300 - DELAY_MAX <= delivered.len() && delivered.len() <= 300);
    // none was made up, and none delivered twice.
    for slot in 0..300u32 {
        assert!(delivered.iter().filter(|op| **op == CapOp::Remove { slot }).count() <= 1);
    }
}

#[test]
fn no_op_waits_longer_than_the_longest_delay() {
    for max_delay_steps in 1..=4u8 {
        let mut inj = FaultInjector::new(FaultConfig::new(0, 700, 0, 0, max_delay_steps).unwrap());
        let mut rng = SimRng::new(21);
        let mut longest = 0;
        for step in 0..400u32 {
            for op in inj.process(CapOp::Remove { slot: step }, &mut rng).iter() {
                if let CapOp::Remove { slot } = op {
                    longest = longest.max(step - slot);
                }
            }
        }
        // the bound is reached and never passed.
        assert_eq!(longest, u32::from(max_delay_steps));
    }
}
