use forkstify::journey::{journey_step, JourneyAction};

#[test]
fn a_typed_line_asks_the_journey_one_thing() {
    assert_eq!(journey_step("q\n", 3, 3, 3), JourneyAction::Quit);
    assert_eq!(journey_step(" u ", 2, 3, 3), JourneyAction::Back);
    assert_eq!(journey_step("u", 1, 3, 3), JourneyAction::AtSeed);
    assert_eq!(journey_step("\n", 1, 3, 3), JourneyAction::Draw);
    assert_eq!(journey_step("", 1, 0, 3), JourneyAction::Wait);
    assert_eq!(journey_step("b5", 1, 3, 3), JourneyAction::Size(5));
    assert_eq!(journey_step("b0", 1, 3, 3), JourneyAction::SizeBad);
    assert_eq!(journey_step("bx", 1, 3, 3), JourneyAction::SizeBad);
    assert_eq!(journey_step("e", 1, 3, 4), JourneyAction::Encore(4));
    assert_eq!(journey_step("2e", 1, 3, 4), JourneyAction::Encore(2));
    assert_eq!(journey_step("12e", 1, 3, 4), JourneyAction::EncoreBad);
    assert_eq!(journey_step("xe", 1, 3, 4), JourneyAction::EncoreBad);
    assert_eq!(journey_step("2", 1, 3, 3), JourneyAction::Take(2));
    assert_eq!(journey_step("4", 1, 3, 3), JourneyAction::ChoiceBad);
    assert_eq!(journey_step("hello", 1, 3, 3), JourneyAction::ChoiceBad);
}
