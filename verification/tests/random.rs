use graviola::error::Error;
use graviola::random::{fill, next_draw, DrawAction, MAX_DRAWS};

#[test]
fn fill_writes_fresh_bytes() {
    let mut a = [0u8; 64];
    let mut b = [0u8; 64];
    assert_eq!(fill(&mut a), Ok(()));
    assert_eq!(fill(&mut b), Ok(()));
    assert_ne!(a, [0u8; 64]);
    assert_ne!(a, b);
}

#[test]
fn fill_accepts_an_empty_buffer() {
    let mut e: [u8; 0] = [];
    assert_eq!(fill(&mut e), Ok(()));
}

#[test]
fn an_accepted_candidate_ends_the_drawing() {
    assert_eq!(next_draw(Ok(()), 1), DrawAction::Done);
    assert_eq!(next_draw(Ok(()), MAX_DRAWS), DrawAction::Done);
    assert_eq!(next_draw(Ok(()), MAX_DRAWS + 1), DrawAction::Done);
}

#[test]
fn a_candidate_out_of_range_is_drawn_again_up_to_the_limit() {
    assert_eq!(MAX_DRAWS, 64);
    assert_eq!(next_draw(Err(Error::OutOfRange), 1), DrawAction::DrawAgain);
    assert_eq!(next_draw(Err(Error::OutOfRange), 63), DrawAction::DrawAgain);
    assert_eq!(next_draw(Err(Error::OutOfRange), 64), DrawAction::GiveUp(Error::RngFailed));
    assert_eq!(next_draw(Err(Error::OutOfRange), 65), DrawAction::GiveUp(Error::RngFailed));
}

#[test]
fn any_other_error_ends_the_drawing_as_it_is() {
    assert_eq!(next_draw(Err(Error::RngFailed), 1), DrawAction::GiveUp(Error::RngFailed));
    assert_eq!(next_draw(Err(Error::WrongLength), 1), DrawAction::GiveUp(Error::WrongLength));
    assert_eq!(next_draw(Err(Error::NotOnCurve), 70), DrawAction::GiveUp(Error::NotOnCurve));
}
