//! Vector numbering and console color codes.

use rust_os::interrupt::{InterruptIndx, PIC_1_OFFSET, PIC_2_OFFSET};
use rust_os::vga_buffer::{Color, UnitColor};

#[test]
fn interrupt_vectors_follow_the_controller_offset() {
    assert_eq!(PIC_1_OFFSET, 32);
    assert_eq!(PIC_2_OFFSET, 40);
    assert_eq!(InterruptIndx::Timer.as_u8(), 32);
    assert_eq!(InterruptIndx::Keyboard.as_u8(), 33);
    assert_eq!(InterruptIndx::Timer.as_usize(), 32);
    assert_eq!(InterruptIndx::Keyboard.as_usize(), 33);
}

#[test]
fn unit_color_packs_two_colors_into_one_byte() {
    assert_eq!(UnitColor::new(Color::Yellow, Color::Black).unit_color, 0xe0);
    assert_eq!(UnitColor::new(Color::Black, Color::Black).unit_color, 0);
    assert_eq!(UnitColor::new(Color::White, Color::Blue).unit_color, 0xf1);
    assert_eq!(UnitColor::new(Color::LightGray, Color::Red).unit_color, 0x74);
}
