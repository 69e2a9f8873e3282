use fleet_dispatch::records::{characters, parse_digits, Span};
use fleet_dispatch::{Destination, DestinationName, Order, Priority, RecordError};

fn place(name: &str, north_m: i64, east_m: i64) -> Destination {
    Destination { name: DestinationName::from_str(name), north_m, east_m }
}

fn order(time: u64, destination: &str, priority: Priority) -> Order {
    Order { time, destination: DestinationName::from_str(destination), priority }
}

#[test]
fn destinations_are_read_line_by_line() {
    assert_eq!(Destination::from_csv(""), Ok(vec![]));
    assert_eq!(
        Destination::from_csv("a, 1, 2\nb, -3, +4\r\nZürich, 0, 00012\n"),
        Ok(vec![place("a", 1, 2), place("b", -3, 4), place("Zürich", 0, 12)])
    );
    assert_eq!(Destination::from_csv("a, 1, 2"), Ok(vec![place("a", 1, 2)]));
    assert_eq!(Destination::from_csv("a, 1, 2, more, fields"), Ok(vec![place("a", 1, 2)]));
    assert_eq!(Destination::from_csv(", 1, 2\n"), Ok(vec![place("", 1, 2)]));
    assert_eq!(Destination::from_csv("a b,c, 1, 2"), Ok(vec![place("a b,c", 1, 2)]));
}

#[test]
fn destination_offsets_span_the_signed_range() {
    assert_eq!(
        Destination::from_csv("x, 9223372036854775807, -9223372036854775808"),
        Ok(vec![place("x", i64::MAX, i64::MIN)])
    );
    assert_eq!(
        Destination::from_csv("x, 9223372036854775808, 0"),
        Err(RecordError::InvalidNumber)
    );
    assert_eq!(
        Destination::from_csv("x, 0, -9223372036854775809"),
        Err(RecordError::InvalidNumber)
    );
    assert_eq!(
        Destination::from_csv("x, 0, 99999999999999999999999999"),
        Err(RecordError::InvalidNumber)
    );
}

#[test]
fn faulty_destination_lines_are_refused() {
    assert_eq!(Destination::from_csv("a"), Err(RecordError::MissingField));
    assert_eq!(Destination::from_csv("a, 1"), Err(RecordError::MissingField));
    assert_eq!(Destination::from_csv("a,1,2"), Err(RecordError::MissingField));
    assert_eq!(Destination::from_csv("a, 1, 2\n\nb, 3, 4"), Err(RecordError::MissingField));
    assert_eq!(Destination::from_csv("a, x, 2"), Err(RecordError::InvalidNumber));
    assert_eq!(Destination::from_csv("a, x"), Err(RecordError::InvalidNumber));
    assert_eq!(Destination::from_csv("a, 1, "), Err(RecordError::InvalidNumber));
    assert_eq!(Destination::from_csv("a, 1, -"), Err(RecordError::InvalidNumber));
    assert_eq!(Destination::from_csv("a, 1, +"), Err(RecordError::InvalidNumber));
    assert_eq!(Destination::from_csv("a, 1,  2"), Err(RecordError::InvalidNumber));
    assert_eq!(Destination::from_csv("a, 1, 2\r"), Err(RecordError::InvalidNumber));
    assert_eq!(Destination::from_csv("a, 1, 2\nb, 1\nc, x, 1"), Err(RecordError::MissingField));
    assert_eq!(Destination::from_csv("a, 1, 2\nb, x\nc, 1"), Err(RecordError::InvalidNumber));
}

#[test]
fn orders_are_read_line_by_line() {
    assert_eq!(
        Order::from_csv("0, a, Emergency\n60, b c, Resupply\r\n+61, , Resupply"),
        Ok(vec![
            order(0, "a", Priority::Emergency),
            order(60, "b c", Priority::Resupply),
            order(61, "", Priority::Resupply),
        ])
    );
    assert_eq!(
        Order::from_csv("18446744073709551615, a, Resupply, note"),
        Ok(vec![order(u64::MAX, "a", Priority::Resupply)])
    );
}

#[test]
fn faulty_order_lines_are_refused() {
    assert_eq!(Order::from_csv("-5, a, Resupply"), Err(RecordError::InvalidNumber));
    assert_eq!(Order::from_csv(" 5, a, Resupply"), Err(RecordError::InvalidNumber));
    assert_eq!(Order::from_csv("18446744073709551616, a, Resupply"), Err(RecordError::InvalidNumber));
    assert_eq!(Order::from_csv("five"), Err(RecordError::InvalidNumber));
    assert_eq!(Order::from_csv("5"), Err(RecordError::MissingField));
    assert_eq!(Order::from_csv("5, a"), Err(RecordError::MissingField));
    assert_eq!(Order::from_csv("5, a, resupply"), Err(RecordError::InvalidPriority));
    assert_eq!(Order::from_csv("5, a, Resupply\r"), Err(RecordError::InvalidPriority));
    assert_eq!(Order::from_csv("5, a, Emergency\n6, b, Urgent\nx"), Err(RecordError::InvalidPriority));
}

#[test]
fn digits_are_read_up_to_a_limit() {
    let chars = characters("0057x");
    let read = |from: usize, to: usize, limit: u64| parse_digits(&chars, &Span { from, to }, limit);
    assert_eq!(read(0, 4, 57), Some(57));
    assert_eq!(read(0, 4, 56), None);
    assert_eq!(read(2, 3, 5), Some(5));
    assert_eq!(read(2, 3, 4), None);
    assert_eq!(read(0, 2, 0), Some(0));
    assert_eq!(read(3, 4, 0), None);
    assert_eq!(read(0, 0, 9), None);
    assert_eq!(read(3, 5, 99), None);
}
