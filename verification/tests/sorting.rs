use embedded_language_server::fuzzy::{best, rank};
use embedded_language_server::protocol::{Position, Range};
use embedded_language_server::sort::sort_order;
use embedded_language_server::tokens::{semantic_tokens_of, sort_by_start, SemanticToken};

fn range(line: u32, start: u32, end: u32) -> Range {
    Range {
        start: Position { line, character: start },
        end: Position { line, character: end },
    }
}

fn token(delta_line: u32, delta_start: u32, length: u32) -> SemanticToken {
    SemanticToken { delta_line, delta_start, length, token_type: 4, token_modifiers_bitset: 0 }
}

#[test]
fn equal_keys_keep_their_order() {
    assert_eq!(sort_order(&vec![3, 1, 2, 1, 3]), vec![1, 3, 2, 0, 4]);
    assert_eq!(sort_order(&vec![]), Vec::<usize>::new());
}

#[test]
fn ranges_are_sorted_by_line_then_character() {
    let ranges = vec![range(2, 0, 1), range(0, 5, 9), range(0, 1, 2), range(0, 5, 6)];
    assert_eq!(
        sort_by_start(&ranges),
        vec![range(0, 1, 2), range(0, 5, 9), range(0, 5, 6), range(2, 0, 1)]
    );
}

#[test]
fn tokens_are_relative_to_the_one_before() {
    let ranges = vec![range(2, 7, 9), range(0, 3, 5), range(2, 1, 4), range(0, 8, 9)];
    assert_eq!(
        semantic_tokens_of(&ranges, 4),
        vec![token(0, 3, 2), token(0, 5, 1), token(2, 1, 3), token(0, 6, 2)]
    );
    assert_eq!(semantic_tokens_of(&vec![], 4), vec![]);
}

#[test]
fn length_wraps_like_the_end_did() {
    assert_eq!(semantic_tokens_of(&vec![range(0, u32::MAX, 1)], 4), vec![token(0, u32::MAX, 2)]);
}

#[test]
fn tokens_lead_back_to_the_ranges() {
    let ranges = vec![range(1, 1, 2), range(1, 9, 12), range(4, 0, 3)];
    let (mut line, mut character) = (0, 0);
    for (token, range) in semantic_tokens_of(&ranges, 0).iter().zip(&ranges) {
        if token.delta_line > 0 {
            character = 0;
        }
        line += token.delta_line;
        character += token.delta_start;
        assert_eq!(Position { line, character }, range.start);
    }
}

#[test]
fn names_that_start_with_the_query_gain_rank() {
    assert_eq!(rank(Some(5), "vS", "vStore"), Some(1005));
    assert_eq!(rank(Some(5), "vS", "xvStore"), Some(5));
    assert_eq!(rank(None, "vS", "vStore"), None);
    assert_eq!(rank(Some(u32::MAX), "v", "v"), Some(999));
}

#[test]
fn highest_rank_comes_first() {
    assert_eq!(best(&vec![Some(1), None, Some(7), Some(1), Some(3)]), vec![2, 4, 0, 3]);
    assert_eq!(best(&vec![None]), Vec::<usize>::new());
}

#[test]
fn no_more_than_a_hundred_results() {
    let ranks: Vec<Option<u32>> = (0..150).map(Some).collect();
    let found = best(&ranks);
    assert_eq!(found.len(), 100);
    assert_eq!(found[0], 149);
    assert_eq!(found[99], 50);
}
