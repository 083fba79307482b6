use sp_state::{MergeBuffer, Offer, Step};

/// Drives a buffer over what waits in a channel until an item comes out or
/// the channel has to be waited for.
fn pull(
    buffer: &mut MergeBuffer<usize>,
    channel: &mut Vec<usize>,
    merge: fn(&mut usize, &usize) -> bool,
) -> Option<usize> {
    loop {
        match buffer.step(channel.is_empty()) {
            Step::Wait => return None,
            Step::Emit(item) => return Some(item),
            Step::Receive => {
                let x = channel.remove(0);
                if let Offer::Merge(mut held, x) = buffer.offer(x) {
                    let merged = merge(&mut held, &x);
                    if let Some(item) = buffer.settle(held, x, merged) {
                        return Some(item);
                    }
                }
            }
        }
    }
}

fn add_until_zero(x: &mut usize, y: &usize) -> bool {
    *x += y;
    *x != 0
}

fn never(_: &mut usize, _: &usize) -> bool {
    false
}

#[test]
fn empty_buffer_waits_on_empty_channel() {
    let mut buffer: MergeBuffer<usize> = MergeBuffer::new();
    assert!(matches!(buffer.step(true), Step::Wait));
    assert!(matches!(buffer.step(true), Step::Wait));
    assert!(matches!(buffer.step(false), Step::Receive));
}

#[test]
fn held_item_comes_out_once_the_channel_is_empty() {
    let mut buffer = MergeBuffer::new();
    assert!(matches!(buffer.offer(4), Offer::Held));
    assert!(matches!(buffer.step(false), Step::Receive));
    assert!(matches!(buffer.step(true), Step::Emit(4)));
    assert!(matches!(buffer.step(true), Step::Wait));
}

#[test]
fn second_item_is_handed_out_with_the_first() {
    let mut buffer = MergeBuffer::new();
    assert!(matches!(buffer.offer(4), Offer::Held));
    assert!(matches!(buffer.offer(5), Offer::Merge(4, 5)));
    assert!(matches!(buffer.step(true), Step::Wait));
}

#[test]
fn settle_keeps_the_folded_item_or_emits_the_old_one() {
    let mut buffer = MergeBuffer::new();
    assert_eq!(buffer.settle(9, 5, true), None);
    assert!(matches!(buffer.step(true), Step::Emit(9)));
    assert_eq!(buffer.settle(9, 5, false), Some(9));
    assert!(matches!(buffer.step(true), Step::Emit(5)));
}

#[test]
fn waiting_items_are_folded() {
    let mut buffer = MergeBuffer::new();
    let mut channel = vec![1, 2, 3, 4];
    assert_eq!(pull(&mut buffer, &mut channel, add_until_zero), Some(10));
    assert_eq!(pull(&mut buffer, &mut channel, add_until_zero), None);
    channel.push(7);
    assert_eq!(pull(&mut buffer, &mut channel, add_until_zero), Some(7));
}

#[test]
fn refused_merge_keeps_items_apart() {
    let mut buffer = MergeBuffer::new();
    let mut channel = vec![1, 2, 3];
    assert_eq!(pull(&mut buffer, &mut channel, never), Some(1));
    assert_eq!(channel, vec![3]);
    assert_eq!(pull(&mut buffer, &mut channel, never), Some(2));
    assert_eq!(pull(&mut buffer, &mut channel, never), Some(3));
    assert_eq!(pull(&mut buffer, &mut channel, never), None);
}
