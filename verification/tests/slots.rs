use hourglass::handle::Handle;
use hourglass::slot_vec::{GenerationalVec, Slot, SlotVec};

#[test]
fn insert_then_get_round_trips() {
    let mut column: GenerationalVec<&str> = GenerationalVec::new(vec![]);
    let handle = Handle {
        index: 3,
        generation: 7,
    };
    column.insert(handle, "value").unwrap();
    assert_eq!(column.len(), 4);
    assert_eq!(column.get(handle), Some(&"value"));
}

#[test]
fn stale_generation_reads_as_absent() {
    let mut column: GenerationalVec<u32> = GenerationalVec::new(vec![]);
    let current = Handle {
        index: 0,
        generation: 2,
    };
    let stale = Handle {
        index: 0,
        generation: 1,
    };
    column.insert(current, 99).unwrap();
    assert_eq!(column.get(current), Some(&99));
    assert_eq!(column.get(stale), None);
    assert_eq!(column.get_mut(stale), None);

    // A stale removal leaves the current occupant's value alone.
    column.remove(stale);
    assert_eq!(column.get(current), Some(&99));
    column.remove(current);
    assert_eq!(column.get(current), None);
}

#[test]
fn out_of_range_is_absence_not_a_panic() {
    let column: GenerationalVec<u32> = GenerationalVec::new(vec![]);
    let handle = Handle {
        index: 100,
        generation: 0,
    };
    assert_eq!(column.get(handle), None);
    assert_eq!(column.slot_at(100), None);
}

#[test]
fn slot_at_covers_the_occupied_span_positionally() {
    let slots: SlotVec<u32> = vec![Some(Slot::new(5, 0)), None, Some(Slot::new(6, 3))];
    let column = GenerationalVec::new(slots);
    assert_eq!(column.len(), 3);
    assert_eq!(column.slot_at(0), Some(&5));
    assert_eq!(column.slot_at(1), None);
    // Positional reads ignore generations; handle reads check them.
    assert_eq!(column.slot_at(2), Some(&6));
    assert_eq!(
        column.get(Handle {
            index: 2,
            generation: 0,
        }),
        None
    );
    assert_eq!(
        column.get(Handle {
            index: 2,
            generation: 3,
        }),
        Some(&6)
    );
}

#[test]
fn get_mut_writes_through() {
    let mut column: GenerationalVec<u32> = GenerationalVec::new(vec![]);
    let handle = Handle {
        index: 1,
        generation: 4,
    };
    column.insert(handle, 10).unwrap();
    *column.get_mut(handle).unwrap() = 20;
    assert_eq!(column.get(handle), Some(&20));
}
