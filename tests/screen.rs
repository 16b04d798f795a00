use vndf::screen::{Color, ScreenBuffer, WriteError, C};

fn row(buffer: &ScreenBuffer, y: u16) -> String {
    let mut cells = buffer.iter();
    let mut s = String::new();
    while let Some((_, cy, c)) = cells.next() {
        if cy == y {
            s.push(c.c);
        }
    }
    s
}

#[test]
fn new_buffer_is_blank() {
    let buffer = ScreenBuffer::new(4, 3);
    assert_eq!(buffer.width(), 4);
    assert_eq!(buffer.height(), 3);
    let mut cells = buffer.iter();
    let mut n = 0;
    while let Some((x, y, c)) = cells.next() {
        assert_eq!((x, y), (n % 4, n / 4));
        assert_eq!(c, C::new());
        n += 1;
    }
    assert_eq!(n, 12);
    assert_eq!(cells.next(), None);
}

#[test]
fn writer_draws_and_moves_on() {
    let mut buffer = ScreenBuffer::new(6, 2);
    let previous = buffer.foreground_color(Color::Red);
    assert_eq!(previous, Color::White);
    let mut writer = buffer.writer(1, 1);
    assert_eq!(writer.write(&mut buffer, "ab".as_bytes()), Ok(()));
    assert_eq!(writer.x, 3);
    assert_eq!(writer.write(&mut buffer, "é".as_bytes()), Ok(()));
    assert_eq!(row(&buffer, 1), " abé  ");
    assert_eq!(row(&buffer, 0), "      ");

    let mut cells = buffer.iter();
    let mut drawn = Vec::new();
    while let Some((x, y, c)) = cells.next() {
        if y == 1 && x == 1 {
            drawn.push(c);
        }
    }
    assert_eq!(
        drawn,
        vec![C { c: 'a', bold: true, foreground_color: Color::Red, background_color: None }]
    );
}

#[test]
fn writer_cuts_off_at_the_limit_and_the_edge() {
    let mut buffer = ScreenBuffer::new(5, 1);
    let mut writer = buffer.writer(0, 0).limit(3);
    assert_eq!(writer.write(&mut buffer, b"abcdef"), Ok(()));
    assert_eq!(writer.x, 3);
    assert_eq!(row(&buffer, 0), "abc  ");

    let mut writer = buffer.writer(3, 0).limit(100);
    assert_eq!(writer.write(&mut buffer, b"xyz"), Ok(()));
    assert_eq!(writer.x, 5);
    assert_eq!(row(&buffer, 0), "abcxy");
}

#[test]
fn writer_errors() {
    let mut buffer = ScreenBuffer::new(5, 1);
    let mut writer = buffer.writer(0, 1);
    assert_eq!(writer.write(&mut buffer, b"a"), Err(WriteError::OutOfBounds));
    let mut writer = buffer.writer(0, 0);
    assert_eq!(writer.write(&mut buffer, &[0x80]), Err(WriteError::InvalidUtf8));
    assert_eq!(writer.x, 0);
    assert_eq!(row(&buffer, 0), "     ");
}

#[test]
fn set_and_clear() {
    let mut buffer = ScreenBuffer::new(3, 2);
    let c = C { c: 'q', bold: true, foreground_color: Color::Blue, background_color: Some(Color::Black) };
    assert_eq!(buffer.set(2, 1, c), Ok(()));
    assert_eq!(buffer.set(3, 1, c), Err(WriteError::OutOfBounds));
    assert_eq!(buffer.set(0, 2, c), Err(WriteError::OutOfBounds));
    assert_eq!(row(&buffer, 1), "  q");
    buffer.foreground_color(Color::Green);
    assert_eq!(buffer.background_color(Some(Color::Cyan)), None);
    buffer.clear();
    assert_eq!(row(&buffer, 1), "   ");
    assert_eq!(buffer.foreground_color(Color::Red), Color::White);
    assert_eq!(buffer.background_color(None), Some(Color::Cyan));
}

#[test]
fn empty_buffer_iterates_nothing() {
    let buffer = ScreenBuffer::new(0, 3);
    let mut cells = buffer.iter();
    assert_eq!(cells.next(), None);
    let buffer = ScreenBuffer::new(3, 0);
    assert_eq!(buffer.iter().next(), None);
}
