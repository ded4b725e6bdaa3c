//! OFDM modem configuration: the integer layout (FFT, cyclic prefix,
//! subcarrier range, frame and payload sizes, RS parity, seeds). The
//! floating-point tuning constants of the analog front end are not part of it.
use vstd::prelude::*;

verus! {

#[derive(Clone, Copy, Debug)]
pub struct Config {
    pub sample_rate: u32,
    pub fft_size: usize,
    pub cp_length: usize,
    pub sc_min: usize,
    pub sc_max: usize,
    pub preamble_symbols: usize,
    pub data_symbols_per_frame: usize,
    pub payload_size: usize,
    pub rs_nsym: usize,
    pub scrambler_seed: u64,
    pub preamble_seed: u64,
    /// Time-differential OFDM: data rides in the phase difference between
    /// consecutive OFDM symbols on the same subcarrier.
    pub differential: bool,
}

/// `a / b` rounded up (`b > 0`).
pub open spec fn ceil_div(a: nat, b: nat) -> nat {
    ((a + b - 1) / (b as int)) as nat
}

proof fn lemma_div_ceil(a: nat, b: nat)
    requires
        b > 0,
    ensures
        a / b + (if a % b == 0 { 0int } else { 1int }) == ceil_div(a, b),
        ceil_div(a, b) <= a,
{
    crate::link::fec::lemma_blocks_for(a, b);
    vstd::arithmetic::div_mod::lemma_fundamental_div_mod(a as int, b as int);
    if a > 0 {
        assert(a / b <= a) by {
            vstd::arithmetic::div_mod::lemma_div_is_ordered_by_denominator(a as int, 1, b as int);
        }
        if a % b != 0 {
            assert(a / b < a) by (nonlinear_arith)
                requires
                    a == b * (a / b) + a % b,
                    a % b > 0,
                    b > 0,
            ;
        }
    } else {
        assert(a % b == 0 && a / b == 0);
    }
}

/// `ceil_div(a, b)` is the least count of `b`-sized pieces covering `a`.
proof fn lemma_ceil_div_least(a: nat, b: nat)
    requires
        b > 0,
    ensures
        ceil_div(a, b) * b >= a,
        a > 0 ==> (ceil_div(a, b) - 1) * b < a,
        a == 0 ==> ceil_div(a, b) == 0,
{
    lemma_div_ceil(a, b);
    vstd::arithmetic::div_mod::lemma_fundamental_div_mod(a as int, b as int);
    let q = a / b;
    let r = a % b;
    let k = ceil_div(a, b);
    if r == 0 {
        assert(k * b == a) by (nonlinear_arith)
            requires
                k == q,
                a == b * q + r,
                r == 0,
        ;
        if a > 0 {
            assert((k - 1) * b < a) by (nonlinear_arith)
                requires
                    k * b == a,
                    b > 0,
            ;
        }
    } else {
        assert(k * b >= a && (k - 1) * b < a) by (nonlinear_arith)
            requires
                k == q + 1,
                a == b * q + r,
                0 < r < b,
        ;
    }
}

/// `a / b` rounded up, as `usize::div_ceil` computes it.
fn div_ceil(a: usize, b: usize) -> (c: usize)
    requires
        b > 0,
    ensures
        c == ceil_div(a as nat, b as nat),
{
    proof {
        lemma_div_ceil(a as nat, b as nat);
    }
    let q = a / b;
    if a % b == 0 {
        q
    } else {
        q + 1
    }
}

impl Config {
    pub open spec fn spec_active_subcarriers(&self) -> nat {
        if self.sc_max >= self.sc_min {
            (self.sc_max - self.sc_min + 1) as nat
        } else {
            0
        }
    }

    /// Layout fields that all presets share.
    pub open spec fn has_preset_defaults(&self) -> bool {
        &&& self.sample_rate == 48000
        &&& self.preamble_symbols == 8
        &&& self.scrambler_seed == 12345
        &&& self.preamble_seed == 42
        &&& !self.differential
    }

    /// The default preset: FFT 256, CP 32, subcarriers 10..=69, 442-byte
    /// payloads, 32 parity bytes.
    pub fn ofdm_default() -> (c: Self)
        ensures
            c.has_preset_defaults(),
            c.fft_size == 256 && c.cp_length == 32 && c.sc_min == 10 && c.sc_max == 69,
            c.data_symbols_per_frame == 35 && c.payload_size == 442 && c.rs_nsym == 32,
    {
        Self {
            sample_rate: 48000,
            fft_size: 256,
            cp_length: 32,
            sc_min: 10,
            sc_max: 69,
            preamble_symbols: 8,
            data_symbols_per_frame: 35,
            payload_size: 442,
            rs_nsym: 32,
            scrambler_seed: 12345,
            preamble_seed: 42,
            differential: false,
        }
    }

    pub fn active_subcarriers(&self) -> (n: usize)
        requires
            self.sc_max - self.sc_min < usize::MAX,
        ensures
            n == self.spec_active_subcarriers(),
    {
        if self.sc_max >= self.sc_min {
            self.sc_max - self.sc_min + 1
        } else {
            0
        }
    }

    /// Two QPSK bits per active subcarrier.
    pub fn bits_per_ofdm_symbol(&self) -> (n: usize)
        requires
            self.sc_max - self.sc_min < usize::MAX,
            2 * self.spec_active_subcarriers() <= usize::MAX,
        ensures
            n == 2 * self.spec_active_subcarriers(),
    {
        self.active_subcarriers() * 2
    }

    pub fn symbol_duration_samples(&self) -> (n: usize)
        requires
            self.fft_size + self.cp_length <= usize::MAX,
        ensures
            n == self.fft_size + self.cp_length,
    {
        self.fft_size + self.cp_length
    }

    pub fn preamble_samples(&self) -> (n: usize)
        requires
            self.fft_size + self.cp_length <= usize::MAX,
            self.preamble_symbols * (self.fft_size + self.cp_length) <= usize::MAX,
        ensures
            n == self.preamble_symbols * (self.fft_size + self.cp_length),
    {
        self.preamble_symbols * self.symbol_duration_samples()
    }

    pub fn frame_samples(&self) -> (n: usize)
        requires
            (self.preamble_symbols + self.data_symbols_per_frame) * (self.fft_size
                + self.cp_length) <= usize::MAX,
            self.fft_size + self.cp_length <= usize::MAX,
            self.preamble_symbols + self.data_symbols_per_frame <= usize::MAX,
        ensures
            n == (self.preamble_symbols + self.data_symbols_per_frame) * (self.fft_size
                + self.cp_length),
    {
        let total_syms = self.preamble_symbols + self.data_symbols_per_frame;
        total_syms * self.symbol_duration_samples()
    }

    /// Preset: 333 symbols/s via FFT 128, CP 16.
    pub fn high_baud() -> (c: Self)
        ensures
            c.has_preset_defaults(),
            c.fft_size == 128 && c.cp_length == 16 && c.sc_min == 4 && c.sc_max == 31,
            c.data_symbols_per_frame == 39 && c.payload_size == 128 && c.rs_nsym == 48,
    {
        Self {
            sample_rate: 48000,
            fft_size: 128,
            cp_length: 16,
            sc_min: 4,
            sc_max: 31,
            preamble_symbols: 8,
            data_symbols_per_frame: 39,
            payload_size: 128,
            rs_nsym: 48,
            scrambler_seed: 12345,
            preamble_seed: 42,
            differential: false,
        }
    }

    /// Preset: robust narrowband via FFT 512, CP 64, subcarriers 20..=120.
    pub fn robust() -> (c: Self)
        ensures
            c.has_preset_defaults(),
            c.fft_size == 512 && c.cp_length == 64 && c.sc_min == 20 && c.sc_max == 120,
            c.data_symbols_per_frame == 21 && c.payload_size == 256 && c.rs_nsym == 32,
    {
        Self {
            sample_rate: 48000,
            fft_size: 512,
            cp_length: 64,
            sc_min: 20,
            sc_max: 120,
            preamble_symbols: 8,
            data_symbols_per_frame: 21,
            payload_size: 256,
            rs_nsym: 32,
            scrambler_seed: 12345,
            preamble_seed: 42,
            differential: false,
        }
    }

    /// Preset: ultrasonic band via subcarriers 80..=120 on FFT 256.
    pub fn ultrasonic() -> (c: Self)
        ensures
            c.has_preset_defaults(),
            c.fft_size == 256 && c.cp_length == 32 && c.sc_min == 80 && c.sc_max == 120,
            c.data_symbols_per_frame == 51 && c.payload_size == 256 && c.rs_nsym == 32,
    {
        Self {
            sample_rate: 48000,
            fft_size: 256,
            cp_length: 32,
            sc_min: 80,
            sc_max: 120,
            preamble_symbols: 8,
            data_symbols_per_frame: 51,
            payload_size: 256,
            rs_nsym: 32,
            scrambler_seed: 12345,
            preamble_seed: 42,
            differential: false,
        }
    }

    /// Preset: ultra-wide band, subcarriers 5..=110 on FFT 256, CP 16.
    pub fn ultrawide() -> (c: Self)
        ensures
            c.has_preset_defaults(),
            c.fft_size == 256 && c.cp_length == 16 && c.sc_min == 5 && c.sc_max == 110,
            c.data_symbols_per_frame == 20 && c.payload_size == 442 && c.rs_nsym == 32,
    {
        Self {
            sample_rate: 48000,
            fft_size: 256,
            cp_length: 16,
            sc_min: 5,
            sc_max: 110,
            preamble_symbols: 8,
            data_symbols_per_frame: 20,
            payload_size: 442,
            rs_nsym: 32,
            scrambler_seed: 12345,
            preamble_seed: 42,
            differential: false,
        }
    }

    /// Bytes of one assembled frame (sync, RS blocks, CRC) for a payload of
    /// `payload_size` bytes with `rs_nsym` parity bytes per block.
    pub open spec fn fitted_frame_bytes(rs_nsym: nat, payload_size: nat) -> nat {
        let max_data = if rs_nsym >= 255 {
            1
        } else {
            (255 - rs_nsym) as nat
        };
        8 + ceil_div(4 + payload_size, max_data) * 255 + 4
    }

    /// Data symbols needed to carry one assembled frame of `payload_size`
    /// bytes, plus the reference symbol in differential mode.
    pub open spec fn fitted_data_symbols(
        &self,
        rs_nsym: nat,
        payload_size: nat,
        bits_per_sym: nat,
    ) -> nat {
        let frame_bytes = Self::fitted_frame_bytes(rs_nsym, payload_size);
        ceil_div(frame_bytes * 8, if bits_per_sym == 0 {
            1
        } else {
            bits_per_sym
        }) + if self.differential {
            1nat
        } else {
            0nat
        }
    }

    /// A fitted layout carries the whole frame and no more symbols than it
    /// needs: the frame is 12 bytes of sync and CRC plus 255 bytes for each
    /// of the fewest RS blocks whose data parts (255 - `rs_nsym` bytes, at
    /// least 1) hold the payload and its 4-byte header; the data symbols
    /// (less the differential reference) are the fewest whose
    /// `bits_per_sym` bits (at least 1) each hold every bit of that frame.
    pub proof fn lemma_fitted_layout(&self, rs_nsym: nat, payload_size: nat, bits_per_sym: nat)
        ensures
            ({
                let m: nat = if rs_nsym >= 255 {
                    1
                } else {
                    (255 - rs_nsym) as nat
                };
                let b: nat = if bits_per_sym == 0 {
                    1
                } else {
                    bits_per_sym
                };
                let f = Self::fitted_frame_bytes(rs_nsym, payload_size);
                let nb = (f - 12) / 255;
                let d = self.fitted_data_symbols(rs_nsym, payload_size, bits_per_sym) - (
                if self.differential {
                    1int
                } else {
                    0int
                });
                &&& f >= 12
                &&& (f - 12) % 255 == 0
                &&& nb * m >= 4 + payload_size
                &&& (nb - 1) * m < 4 + payload_size
                &&& d * b >= 8 * f
                &&& (d - 1) * b < 8 * f
            }),
    {
        let m: nat = if rs_nsym >= 255 {
            1
        } else {
            (255 - rs_nsym) as nat
        };
        let b: nat = if bits_per_sym == 0 {
            1
        } else {
            bits_per_sym
        };
        let nb0 = ceil_div(4 + payload_size, m);
        lemma_ceil_div_least(4 + payload_size, m);
        let f = Self::fitted_frame_bytes(rs_nsym, payload_size);
        assert(f == 12 + nb0 * 255);
        vstd::arithmetic::div_mod::lemma_div_multiples_vanish(nb0 as int, 255);
        vstd::arithmetic::div_mod::lemma_mod_multiples_basic(nb0 as int, 255);
        assert((f - 12) / 255 == nb0);
        lemma_ceil_div_least(f * 8, b);
        assert(8 * f == f * 8);
    }

    /// Rebuild the layout and fit `data_symbols_per_frame` to the assembled
    /// frame for this payload size.
    pub fn with_layout(
        self,
        fft_size: usize,
        cp_length: usize,
        sc_min: usize,
        sc_max: usize,
        rs_nsym: usize,
        payload_size: usize,
    ) -> (c: Self)
        requires
            payload_size + 4 <= usize::MAX,
            8 * Self::fitted_frame_bytes(rs_nsym as nat, payload_size as nat) < usize::MAX,
            2 * (if sc_max >= sc_min {
                sc_max - sc_min + 1
            } else {
                0
            }) <= usize::MAX,
        ensures
            c.fft_size == fft_size && c.cp_length == cp_length,
            c.sc_min == sc_min && c.sc_max == sc_max,
            c.rs_nsym == rs_nsym && c.payload_size == payload_size,
            c.sample_rate == self.sample_rate && c.preamble_symbols == self.preamble_symbols,
            c.scrambler_seed == self.scrambler_seed && c.preamble_seed == self.preamble_seed,
            c.differential == self.differential,
            c.data_symbols_per_frame == self.fitted_data_symbols(
                rs_nsym as nat,
                payload_size as nat,
                c.spec_active_subcarriers() * 2,
            ),
    {
        let mut c = self;
        c.fft_size = fft_size;
        c.cp_length = cp_length;
        c.sc_min = sc_min;
        c.sc_max = sc_max;
        c.rs_nsym = rs_nsym;
        c.payload_size = payload_size;
        let max_data = if rs_nsym >= 255 { 1 } else { 255 - rs_nsym };
        let n_blocks = div_ceil(4 + payload_size, max_data);
        assert(8 * (8 + n_blocks * 255 + 4) < usize::MAX);
        let frame_bytes = 8 + n_blocks * 255 + 4;
        let bits = c.bits_per_ofdm_symbol();
        let bits_per_sym = if bits == 0 { 1 } else { bits };
        let extra: usize = if c.differential { 1 } else { 0 };
        let d = div_ceil(frame_bytes * 8, bits_per_sym);
        proof {
            lemma_div_ceil((frame_bytes * 8) as nat, bits_per_sym as nat);
        }
        c.data_symbols_per_frame = d + extra;
        c
    }
}

/// The named layouts.
#[derive(PartialEq, Eq, Structural, Clone, Copy, Debug)]
pub enum Preset {
    Default,
    HighBaud,
    Robust,
    Ultrasonic,
    Ultrawide,
}

/// `c` with ASCII capitals made small (other characters unchanged).
pub open spec fn ascii_lower(c: char) -> char {
    if 'A' <= c <= 'Z' {
        ((c as u32) + 32) as char
    } else {
        c
    }
}

/// Whether `name`, with ASCII capitals made small, reads `word` (ASCII).
pub open spec fn names(name: Seq<char>, word: Seq<u8>) -> bool {
    &&& name.len() == word.len()
    &&& forall|i: int| 0 <= i < name.len() ==> #[trigger] ascii_lower(name[i]) == word[i] as char
}

/// The preset a name selects: `high_baud` or `highbaud`, `robust`,
/// `ultrasonic`, `ultrawide`, in any letter case; anything else selects the
/// default. (Only an ASCII word can name a preset, so folding the ASCII
/// capitals decides exactly what full case folding would.)
pub open spec fn preset_named(name: Seq<char>) -> Preset {
    if names(name, seq![104u8, 105, 103, 104, 95, 98, 97, 117, 100]) || names(
        name,
        seq![104u8, 105, 103, 104, 98, 97, 117, 100],
    ) {
        Preset::HighBaud
    } else if names(name, seq![114u8, 111, 98, 117, 115, 116]) {
        Preset::Robust
    } else if names(name, seq![117u8, 108, 116, 114, 97, 115, 111, 110, 105, 99]) {
        Preset::Ultrasonic
    } else if names(name, seq![117u8, 108, 116, 114, 97, 119, 105, 100, 101]) {
        Preset::Ultrawide
    } else {
        Preset::Default
    }
}

/// Whether `c` is the layout of preset `p`.
pub open spec fn is_preset(c: Config, p: Preset) -> bool {
    &&& c.has_preset_defaults()
    &&& match p {
        Preset::Default => c.fft_size == 256 && c.cp_length == 32 && c.sc_min == 10 && c.sc_max
            == 69 && c.data_symbols_per_frame == 35 && c.payload_size == 442 && c.rs_nsym == 32,
        Preset::HighBaud => c.fft_size == 128 && c.cp_length == 16 && c.sc_min == 4 && c.sc_max
            == 31 && c.data_symbols_per_frame == 39 && c.payload_size == 128 && c.rs_nsym == 48,
        Preset::Robust => c.fft_size == 512 && c.cp_length == 64 && c.sc_min == 20 && c.sc_max
            == 120 && c.data_symbols_per_frame == 21 && c.payload_size == 256 && c.rs_nsym == 32,
        Preset::Ultrasonic => c.fft_size == 256 && c.cp_length == 32 && c.sc_min == 80 && c.sc_max
            == 120 && c.data_symbols_per_frame == 51 && c.payload_size == 256 && c.rs_nsym == 32,
        Preset::Ultrawide => c.fft_size == 256 && c.cp_length == 16 && c.sc_min == 5 && c.sc_max
            == 110 && c.data_symbols_per_frame == 20 && c.payload_size == 442 && c.rs_nsym == 32,
    }
}

/// Whether `name`, with ASCII capitals made small, reads the ASCII `word`.
fn name_is(name: &str, word: &[u8]) -> (b: bool)
    requires
        forall|i: int| 0 <= i < word@.len() ==> !(65 <= #[trigger] word@[i] <= 90),
    ensures
        b == names(name@, word@),
{
    let n = name.unicode_len();
    if n != word.len() {
        return false;
    }
    let mut i: usize = 0;
    while i < n
        invariant
            n == name@.len(),
            n == word@.len(),
            i <= n,
            forall|k: int| 0 <= k < i ==> #[trigger] ascii_lower(name@[k]) == word@[k] as char,
            forall|k: int| 0 <= k < word@.len() ==> !(65 <= #[trigger] word@[k] <= 90),
        decreases n - i,
    {
        let c = name.get_char(i);
        let w = word[i];
        let cu = c as u32;
        let same = cu == w as u32 || ('A' <= c && c <= 'Z' && cu + 32 == w as u32);
        assert(!(65 <= word@[i as int] <= 90));
        assert(c == name@[i as int]);
        if !same {
            assert(ascii_lower(c) != w as char);
            return false;
        }
        assert(ascii_lower(c) == w as char);
        i = i + 1;
    }
    true
}

impl Config {
    /// The preset with the given name (see `preset_named`).
    pub fn from_preset_name(name: &str) -> (c: Self)
        ensures
            is_preset(c, preset_named(name@)),
    {
        if name_is(name, &[104u8, 105, 103, 104, 95, 98, 97, 117, 100]) || name_is(
            name,
            &[104u8, 105, 103, 104, 98, 97, 117, 100],
        ) {
            Self::high_baud()
        } else if name_is(name, &[114u8, 111, 98, 117, 115, 116]) {
            Self::robust()
        } else if name_is(name, &[117u8, 108, 116, 114, 97, 115, 111, 110, 105, 99]) {
            Self::ultrasonic()
        } else if name_is(name, &[117u8, 108, 116, 114, 97, 119, 105, 100, 101]) {
            Self::ultrawide()
        } else {
            Self::ofdm_default()
        }
    }
}

} // verus!
