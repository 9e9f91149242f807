use ready_set_boole::get_even_bits;
use ready_set_boole::set_even_bits;

#[test]
fn test_set_even_bits() {
    assert_eq!(set_even_bits(0), 0);
    assert_eq!(set_even_bits(0b101010), 0b010001000100);
    assert_eq!(set_even_bits(0xffff), 0x55555555);
}

#[test]
fn test_get_even_bits() {
    assert_eq!(get_even_bits(0), 0);
    assert_eq!(get_even_bits(0b010001000100), 0b101010);
    assert_eq!(get_even_bits(0x55555555), 0xffff);
}

#[test]
fn test_even_bits_round_trip() {
    for n in [0u16, 1, 2, 3, 0x00ff, 0x1234, 0x8000, 0xffff] {
        assert_eq!(get_even_bits(set_even_bits(n)), n);
    }
}
