use mini_haskell::buffer::normal::NormalBuffer;
use mini_haskell::buffer::{match_text, span_, span_collect, span, Buffer, StreamN};
use mini_haskell::char::{Ascii, NotPred, Stream};

const LIPSUM: &str = "Lorem ipsum dolor sit amet, consectetur adipiscing elit. Vestibulum facilisis turpis ex, eu dignissim purus varius non. Integer elit enim, rhoncus a lacinia sed, fermentum eget mauris. Suspendisse bibendum pellentesque justo, et fermentum tortor tempor et. Sed interdum, ligula quis sagittis tristique, mi magna malesuada felis, vitae gravida ligula libero ac tellus. Morbi imperdiet scelerisque leo sit amet consequat. Pellentesque tellus lectus, sagittis in gravida at, laoreet ut justo. Vivamus posuere arcu diam, eu pellentesque ante maximus pulvinar. Phasellus id rhoncus enim, ut iaculis justo. Fusce interdum dolor vel purus pulvinar aliquam. Curabitur nec nulla magna. Etiam sagittis sem nibh, eget auctor nunc molestie in. Vivamus pretium augue in blandit porta. Integer tempus fermentum enim, non ultrices nulla tempor quis. Sed vel tincidunt enim, at vulputate risus. Nulla facilisi. Ut pellentesque pharetra urna ac finibus. Aenean ac dignissim orci. Praesent vulputate massa a vulputate facilisis. Phasellus sed.";

fn text(v: Vec<char>) -> String {
    v.into_iter().collect()
}

#[test]
fn normal_test_basics() {
    let mut buffer = NormalBuffer::new(LIPSUM.chars().collect());
    assert_eq!(text(buffer.peek_n(5)), LIPSUM[..5]);
    assert_eq!(text(buffer.next_n(5)), LIPSUM[..5]);
    assert_eq!(text(buffer.peek_n(7)), LIPSUM[5..5 + 7]);
    assert_eq!(text(buffer.peek_n(7)), LIPSUM[5..5 + 7]);
}

#[test]
fn anchor_test_basics() {
    let mut buffer = NormalBuffer::new(LIPSUM.chars().collect());
    assert_eq!(text(buffer.next_n(42)), LIPSUM[..42]);
    {
        let mut anchored = buffer.anchor();
        assert_eq!(text(anchored.next_n(304)), LIPSUM[42..42 + 304]);
        // not reverted
        buffer = anchored.release();
    }
    assert_eq!(buffer.current_index(), 42 + 304);
    {
        let mut anchored = buffer.anchor();
        assert_eq!(text(anchored.next_n(211)), LIPSUM[42 + 304..42 + 304 + 211]);
        anchored.revert();
        buffer = anchored.release();
    }
    assert_eq!(buffer.current_index(), 42 + 304);
}

#[test]
fn reading_past_the_end_stops_at_the_end() {
    let mut buffer = NormalBuffer::new("abc".chars().collect());
    assert_eq!(text(buffer.next_n(10)), "abc");
    assert_eq!(buffer.next(), None);
    assert_eq!(buffer.peek(), None);
    assert_eq!(buffer.current_index(), 3);
}

#[test]
fn anchors_nest_through_set_anchor() {
    let mut buffer = NormalBuffer::new("abcdef".chars().collect());
    assert_eq!(buffer.next(), Some('a'));
    assert_eq!(buffer.set_anchor(Some(1)), None);
    assert_eq!(buffer.next(), Some('b'));
    assert_eq!(buffer.next(), Some('c'));
    buffer.revert();
    assert_eq!(buffer.current_index(), 1);
    assert_eq!(buffer.peek(), Some('b'));
    assert_eq!(buffer.set_anchor(None), Some(1));
}

#[test]
fn span_takes_the_longest_run() {
    let mut buffer = NormalBuffer::new("12345abc678".chars().collect());
    assert_eq!(text(span_collect(&mut buffer, &Ascii::Digit)), "12345");
    assert_eq!(buffer.peek(), Some('a'));
    span_(&mut buffer, &NotPred(Ascii::Digit));
    assert_eq!(buffer.peek(), Some('6'));
    let sum = span(&mut buffer, &Ascii::Digit, 0u32, &|acc: u32, c: char| acc * 10 + (c as u32 - 48));
    assert_eq!(sum, 678);
    assert_eq!(buffer.peek(), None);
    assert_eq!(text(span_collect(&mut buffer, &Ascii::Any)), "");
}

#[test]
fn a_text_is_matched_against_a_stream() {
    let mut b = NormalBuffer::new("hello world".chars().collect());
    assert!(match_text(&mut b, "hello"));
    assert_eq!(Stream::next(&mut b), Some(' '));
    assert!(!match_text(&mut b, "word"));
    // what was in the way is taken too
    assert_eq!(Stream::next(&mut b), Some('d'));
    assert!(!match_text(&mut b, "x"));
    assert!(match_text(&mut b, ""));
}
