//! Single-tile files of the oldest, directory-based format: one file
//! per cell, named after the cell's coordinates.

use vstd::prelude::*;

use crate::coords::{valid_lat, valid_lon};
use vstd::string::StringExecFns;
use vstd::string::StringSliceAdditionalSpecFns;

verus! {

/// True equality of two ASCII strings, decided byte by byte.
fn ascii_str_eq(a: &str, b: &str) -> (r: bool)
    ensures
        r ==> a@ == b@,
{
    if !a.is_ascii() || !b.is_ascii() {
        return false;
    }
    let ab = a.as_bytes();
    let bb = b.as_bytes();
    let n = ab.len();
    if n != bb.len() {
        return false;
    }
    let mut i: usize = 0;
    while i < n
        invariant
            ab@ == a.spec_bytes(),
            bb@ == b.spec_bytes(),
            n == ab@.len(),
            n == bb@.len(),
            i <= n,
            forall|k: int| 0 <= k < i ==> ab@[k] == bb@[k],
        decreases n - i,
    {
        if ab[i] != bb[i] {
            return false;
        }
        i += 1;
    }
    proof {
        vstd::utf8::is_ascii_chars_encode_utf8(a@);
        vstd::utf8::is_ascii_chars_encode_utf8(b@);
        assert forall|k: int| 0 <= k < a@.len() implies a@[k] == b@[k] by {
            assert(a@[k] as u8 == b@[k] as u8);
            assert('\0' <= a@[k] <= '\u{7f}' && '\0' <= b@[k] <= '\u{7f}');
        }
        assert(a@ =~= b@);
    }
    true
}

/// A single tile file's raw bytes.
pub struct GeoTile {
    /// The file's contents, as read.
    pub data: Vec<u8>,
}

/// The decimal digit character for one digit value.
pub open spec fn spec_digit(d: int) -> char {
    if d == 0 {
        '0'
    } else if d == 1 {
        '1'
    } else if d == 2 {
        '2'
    } else if d == 3 {
        '3'
    } else if d == 4 {
        '4'
    } else if d == 5 {
        '5'
    } else if d == 6 {
        '6'
    } else if d == 7 {
        '7'
    } else if d == 8 {
        '8'
    } else {
        '9'
    }
}

/// The decimal digits of a number below 1000, most significant first.
pub open spec fn spec_decimal(n: int) -> Seq<char> {
    if n < 10 {
        seq![spec_digit(n)]
    } else if n < 100 {
        seq![spec_digit(n / 10), spec_digit(n % 10)]
    } else {
        seq![spec_digit(n / 100), spec_digit((n / 10) % 10), spec_digit(n % 10)]
    }
}

/// The file name of the tile at (lat, lon): hemisphere letters around
/// the unpadded coordinate magnitudes, with the tile extension.
pub open spec fn spec_file_name(lat: int, lon: int) -> Seq<char> {
    (if lat < 0 {
        seq!['S']
    } else {
        seq!['N']
    }) + spec_decimal(if lat < 0 {
        -lat
    } else {
        lat
    }) + (if lon < 0 {
        seq!['W']
    } else {
        seq!['E']
    }) + spec_decimal(if lon < 0 {
        -lon
    } else {
        lon
    }) + seq!['.', 'g', 'e', 'o']
}

/// Appends one decimal digit character.
fn append_digit(s: &mut String, d: u16)
    requires
        d < 10,
    ensures
        final(s)@ == old(s)@ + seq![spec_digit(d as int)],
{
    proof {
        reveal_strlit("0");
        reveal_strlit("1");
        reveal_strlit("2");
        reveal_strlit("3");
        reveal_strlit("4");
        reveal_strlit("5");
        reveal_strlit("6");
        reveal_strlit("7");
        reveal_strlit("8");
        reveal_strlit("9");
    }
    match d {
        0 => s.append("0"),
        1 => s.append("1"),
        2 => s.append("2"),
        3 => s.append("3"),
        4 => s.append("4"),
        5 => s.append("5"),
        6 => s.append("6"),
        7 => s.append("7"),
        8 => s.append("8"),
        _ => s.append("9"),
    }
    proof {
        assert(final(s)@ =~= old(s)@ + seq![spec_digit(d as int)]);
    }
}

/// Appends a number below 1000 in decimal, without padding.
fn append_decimal(s: &mut String, n: u16)
    requires
        n < 1000,
    ensures
        final(s)@ == old(s)@ + spec_decimal(n as int),
{
    if n < 10 {
        append_digit(s, n);
        proof {
            assert(final(s)@ =~= old(s)@ + spec_decimal(n as int));
        }
    } else if n < 100 {
        append_digit(s, n / 10);
        append_digit(s, n % 10);
        proof {
            assert(final(s)@ =~= old(s)@ + spec_decimal(n as int));
        }
    } else {
        append_digit(s, n / 100);
        append_digit(s, (n / 10) % 10);
        append_digit(s, n % 10);
        proof {
            assert(final(s)@ =~= old(s)@ + spec_decimal(n as int));
        }
    }
}

impl GeoTile {

    /// Parses a tile file name back to its cell's coordinates. A name
    /// is accepted only when it is the canonical name of the returned
    /// cell, so the parse is an exact inverse of
    /// `get_file_name_for_coordinates`.
    pub fn get_coordinates_from_file_name(name: &str) -> (r: Option<(i16, i16)>)
        ensures
            r matches Some(c) ==> valid_lat(c.0 as int) && valid_lon(c.1 as int) && name@
                == spec_file_name(c.0 as int, c.1 as int),
    {
        let bytes = name.as_bytes();
        let n = bytes.len();
        if n < 8 {
            return None;
        }
        let lat_south = match bytes[0] {
            78 => false,
            83 => true,
            _ => {
                return None;
            },
        };
        let mut i: usize = 1;
        let mut lat_mag: u16 = 0;
        while i < n && bytes[i] >= 48 && bytes[i] <= 57
            invariant
                n == bytes@.len(),
                1 <= i <= n,
                lat_mag < 10000,
            decreases n - i,
        {
            if lat_mag >= 1000 {
                return None;
            }
            lat_mag = lat_mag * 10 + (bytes[i] - 48) as u16;
            i += 1;
        }
        if i == 1 || i >= n {
            return None;
        }
        let lon_west = match bytes[i] {
            69 => false,
            87 => true,
            _ => {
                return None;
            },
        };
        i += 1;
        let lon_start = i;
        let mut lon_mag: u16 = 0;
        while i < n && bytes[i] >= 48 && bytes[i] <= 57
            invariant
                n == bytes@.len(),
                lon_start <= i <= n,
                lon_mag < 10000,
            decreases n - i,
        {
            if lon_mag >= 1000 {
                return None;
            }
            lon_mag = lon_mag * 10 + (bytes[i] - 48) as u16;
            i += 1;
        }
        if i == lon_start {
            return None;
        }
        if n - i != 4 || bytes[i] != 46 || bytes[i + 1] != 103 || bytes[i + 2] != 101 || bytes[i
            + 3] != 111 {
            return None;
        }
        let lat: i16 = if lat_south {
            -(lat_mag as i16)
        } else {
            lat_mag as i16
        };
        let lon: i16 = if lon_west {
            -(lon_mag as i16)
        } else {
            lon_mag as i16
        };
        if !(-90 <= lat && lat < 90 && -180 <= lon && lon < 180) {
            return None;
        }
        // The canonical rendering must match the input exactly.
        let canonical = GeoTile::get_file_name_for_coordinates(lat, lon);
        if ascii_str_eq(canonical.as_str(), name) {
            Some((lat, lon))
        } else {
            None
        }
    }

    /// The file name of the tile at (lat, lon).
    pub fn get_file_name_for_coordinates(lat: i16, lon: i16) -> (r: String)
        requires
            valid_lat(lat as int),
            valid_lon(lon as int),
        ensures
            r@ == spec_file_name(lat as int, lon as int),
    {
        proof {
            reveal_strlit("N");
            reveal_strlit("S");
            reveal_strlit("E");
            reveal_strlit("W");
            reveal_strlit(".geo");
        }
        let mut s = String::new();
        if lat < 0 {
            s.append("S");
        } else {
            s.append("N");
        }
        let alat: u16 = if lat < 0 {
            (-(lat as i32)) as u16
        } else {
            lat as u16
        };
        append_decimal(&mut s, alat);
        if lon < 0 {
            s.append("W");
        } else {
            s.append("E");
        }
        let alon: u16 = if lon < 0 {
            (-(lon as i32)) as u16
        } else {
            lon as u16
        };
        append_decimal(&mut s, alon);
        s.append(".geo");
        proof {
            assert(s@ =~= spec_file_name(lat as int, lon as int));
        }
        s
    }
}

} // verus!
