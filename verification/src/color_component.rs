//! Per-colour-component parameters declared by SOF0 and SOS.

use vstd::prelude::*;

use crate::bit_reader::{spec_read_byte, BitReader, ReaderState};
use crate::DecodeError;

verus! {

/// One colour component's sampling factors, table assignments, and
/// whether the frame and the scan have declared it.
#[derive(Clone, Copy, Debug)]
pub struct ColorComponent {
    pub horizontal_sampling_factor: u8,
    pub vertical_sampling_factor: u8,
    pub quantization_table_id: u8,
    pub huffman_ac_table_id: u8,
    pub huffman_dc_table_id: u8,
    pub used_scan: bool,
    pub used_frame: bool,
}

/// The component that a SOF0 component entry (sampling byte, then
/// quantisation-table id) turns `c` into, with the reader state after
/// it: both sampling factors must be one, the table id at most three,
/// and the component not yet declared in this frame.
pub open spec fn spec_component_from_binary(
    data: Seq<u8>,
    st: ReaderState,
    c: ColorComponent,
) -> Result<(ColorComponent, ReaderState), DecodeError> {
    if c.used_frame {
        Err(DecodeError::MalformedSegment)
    } else {
        match spec_read_byte(data, st) {
            Ok((st1, sampling)) => match spec_read_byte(data, st1) {
                Ok((st2, qt_id)) => {
                    if qt_id > 3 {
                        Err(DecodeError::MalformedSegment)
                    } else if (sampling >> 4u8) & 0x0F != 1 || sampling & 0x0F != 1 {
                        Err(DecodeError::UnsupportedFeature)
                    } else {
                        Ok(
                            (
                                ColorComponent {
                                    horizontal_sampling_factor: (sampling >> 4u8) & 0x0F,
                                    vertical_sampling_factor: sampling & 0x0F,
                                    quantization_table_id: qt_id,
                                    used_frame: true,
                                    ..c
                                },
                                st2,
                            ),
                        )
                    }
                },
                Err(e) => Err(e),
            },
            Err(e) => Err(e),
        }
    }
}

impl Default for ColorComponent {
    /// A component no frame has declared yet.
    fn default() -> (r: ColorComponent)
        ensures
            r == ColorComponent::new_spec(),
    {
        ColorComponent::new()
    }
}

impl ColorComponent {
    /// The value of a component no frame has declared yet.
    pub open spec fn new_spec() -> ColorComponent {
        ColorComponent {
            horizontal_sampling_factor: 1u8,
            vertical_sampling_factor: 1u8,
            quantization_table_id: 0u8,
            huffman_ac_table_id: 0u8,
            huffman_dc_table_id: 0u8,
            used_scan: false,
            used_frame: false,
        }
    }

    /// A component no frame has declared yet: sampling factors one,
    /// all table ids zero.
    pub fn new() -> (r: ColorComponent)
        ensures
            r == (ColorComponent {
                horizontal_sampling_factor: 1u8,
                vertical_sampling_factor: 1u8,
                quantization_table_id: 0u8,
                huffman_ac_table_id: 0u8,
                huffman_dc_table_id: 0u8,
                used_scan: false,
                used_frame: false,
            }),
    {
        ColorComponent {
            horizontal_sampling_factor: 1,
            vertical_sampling_factor: 1,
            quantization_table_id: 0,
            huffman_ac_table_id: 0,
            huffman_dc_table_id: 0,
            used_scan: false,
            used_frame: false,
        }
    }

    /// Reads this component's SOF0 entry: a packed sampling byte and a
    /// quantisation-table id.
    pub fn from_binary(&mut self, reader: &mut BitReader) -> (r: Result<(), DecodeError>)
        requires
            old(reader).wf(),
        ensures
            final(reader).wf(),
            final(reader).bytes() == old(reader).bytes(),
            match spec_component_from_binary(old(reader).bytes(), old(reader).st(), *old(self)) {
                Ok((c, st2)) => r == Ok::<(), DecodeError>(()) && *final(self) == c && final(reader).st() == st2,
                Err(e) => r == Err::<(), DecodeError>(e),
            },
    {
        if self.used_frame {
            return Err(DecodeError::MalformedSegment);
        }
        let sampling: u8 = match reader.read_byte() {
            Ok(b) => b,
            Err(e) => {
                return Err(e);
            },
        };
        let qt_id: u8 = match reader.read_byte() {
            Ok(b) => b,
            Err(e) => {
                return Err(e);
            },
        };
        if qt_id > 3 {
            return Err(DecodeError::MalformedSegment);
        }
        let h: u8 = (sampling >> 4u8) & 0x0F;
        let v: u8 = sampling & 0x0F;
        if h != 1 || v != 1 {
            return Err(DecodeError::UnsupportedFeature);
        }
        self.horizontal_sampling_factor = h;
        self.vertical_sampling_factor = v;
        self.quantization_table_id = qt_id;
        self.used_frame = true;
        Ok(())
    }

    pub fn set_huffman_ac_table_id(&mut self, id: u8)
        ensures
            *final(self) == (ColorComponent { huffman_ac_table_id: id, ..*old(self) }),
    {
        self.huffman_ac_table_id = id;
    }

    pub fn set_huffman_dc_table_id(&mut self, id: u8)
        ensures
            *final(self) == (ColorComponent { huffman_dc_table_id: id, ..*old(self) }),
    {
        self.huffman_dc_table_id = id;
    }

    pub fn quantization_table_id(&self) -> (r: u8)
        ensures
            r == self.quantization_table_id,
    {
        self.quantization_table_id
    }

    pub fn huffman_ac_table_id(&self) -> (r: u8)
        ensures
            r == self.huffman_ac_table_id,
    {
        self.huffman_ac_table_id
    }

    pub fn huffman_dc_table_id(&self) -> (r: u8)
        ensures
            r == self.huffman_dc_table_id,
    {
        self.huffman_dc_table_id
    }

    pub fn set_used_scan(&mut self, used_scan: bool)
        ensures
            *final(self) == (ColorComponent { used_scan: used_scan, ..*old(self) }),
    {
        self.used_scan = used_scan;
    }

    pub fn used_scan(&self) -> (r: bool)
        ensures
            r == self.used_scan,
    {
        self.used_scan
    }

    pub fn used_frame(&self) -> (r: bool)
        ensures
            r == self.used_frame,
    {
        self.used_frame
    }
}

} // verus!
