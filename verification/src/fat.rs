//! FAT32 directory records and the packed time and date of their last
//! change.
use vstd::prelude::*;
use crate::bits::lemma_fat_time_bits;

verus! {

/// Whether every bit of `mask` is set in `byte`.
pub open spec fn has_bits(byte: u8, mask: u8) -> bool {
    byte & mask == mask
}

/// A 32-byte directory record.
pub struct DirectoryRecord {
    /// Short filename of the entry.
    pub short_filename: [u8; 11],
    /// Attribute byte.
    pub attribute: u8,
    /// Reserved byte.
    pub reserved: u8,
    /// Tenths of a second at creation time, from 0 to 199.
    pub creation_tenth_sec: u8,
    /// High word of the entry's first cluster number.
    pub first_cluster_high: u16,
    pub modify_time: ModifyTime,
    pub modify_date: ModifyDate,
    /// Low word of the entry's first cluster number.
    pub first_cluster_low: u16,
    pub file_size: u32,
}

impl DirectoryRecord {
    /// The entry may not be written.
    pub fn read_only(&self) -> (r: bool)
        ensures
            r == has_bits(self.attribute, 0b0001),
    {
        self.attribute & 0b0001 == 0b0001
    }

    /// The entry is hidden.
    pub fn hidden(&self) -> (r: bool)
        ensures
            r == has_bits(self.attribute, 0b0010),
    {
        self.attribute & 0b0010 == 0b0010
    }

    /// The entry belongs to the system.
    pub fn system(&self) -> (r: bool)
        ensures
            r == has_bits(self.attribute, 0b0100),
    {
        self.attribute & 0b0100 == 0b0100
    }

    /// The entry is the volume label.
    pub fn bpb(&self) -> (r: bool)
        ensures
            r == has_bits(self.attribute, 0b1000),
    {
        self.attribute & 0b1000 == 0b1000
    }

    /// The entry is part of a long filename: the four low attribute bits
    /// are all set.
    pub fn long_filename(&self) -> (r: bool)
        ensures
            r == has_bits(self.attribute, 0b1111),
    {
        self.attribute & 0b1111 == 0b1111
    }

    /// The entry is a directory.
    pub fn subdirectory(&self) -> (r: bool)
        ensures
            r == has_bits(self.attribute, 0b10000),
    {
        self.attribute & 0b10000 == 0b10000
    }

    /// The entry changed since the last backup.
    pub fn archive(&self) -> (r: bool)
        ensures
            r == has_bits(self.attribute, 0b100000),
    {
        self.attribute & 0b100000 == 0b100000
    }

    /// The entry was deleted: its name starts with `0xE5`.
    pub fn unused(&self) -> (r: bool)
        ensures
            r == (self.short_filename@[0] == 0xE5),
    {
        self.short_filename[0] == 0xE5
    }

    /// The entry ends the directory: its name starts with a zero byte.
    pub fn end_of_directory(&self) -> (r: bool)
        ensures
            r == (self.short_filename@[0] == 0x00),
    {
        self.short_filename[0] == 0x00
    }
}

/// A time of day packed in 16 bits: hours in bits 11..16, minutes in bits
/// 5..11, and seconds halved in bits 0..5.
#[derive(Debug, Clone, Copy)]
pub struct ModifyTime(pub u16);

impl ModifyTime {
    /// The seconds: the low five bits, doubled.
    pub fn second(self) -> (r: u8)
        ensures
            r == (self.0 % 32) * 2,
    {
        proof {
            lemma_fat_time_bits(self.0);
        }
        ((self.0 & 0x001F) as u8) * 2
    }

    /// The minutes: bits 5..11.
    pub fn minute(self) -> (r: u8)
        ensures
            r == self.0 / 32 % 64,
    {
        proof {
            lemma_fat_time_bits(self.0);
        }
        ((self.0 & 0b0000_0111_1110_0000) >> 5u16) as u8
    }

    /// The hours: bits 11..16.
    pub fn hour(self) -> (r: u8)
        ensures
            r == self.0 / 2048,
    {
        proof {
            lemma_fat_time_bits(self.0);
        }
        ((self.0 & 0b1111_1000_0000_0000) >> 11u16) as u8
    }
}

/// A date packed in 16 bits: the year since 1980 in bits 9..16, the month
/// in bits 5..9 and the day in bits 0..5.
#[derive(Debug, Clone, Copy)]
pub struct ModifyDate(pub u16);

impl ModifyDate {
    /// The day: the low five bits.
    pub fn day(self) -> (r: u8)
        ensures
            r == self.0 % 32,
    {
        proof {
            lemma_fat_time_bits(self.0);
        }
        (self.0 & 0x001F) as u8
    }

    /// The month, read as the mask shifted before it is applied: the low
    /// four bits.
    pub fn month(self) -> (r: u8)
        ensures
            r == self.0 % 16,
    {
        proof {
            lemma_fat_time_bits(self.0);
        }
        (self.0 & (0b0000_0001_1110_0000u16 >> 5u16)) as u8
    }

    /// The year, read as the mask shifted before it is applied: the low
    /// seven bits plus 1980.
    pub fn year(self) -> (r: u16)
        ensures
            r == self.0 % 128 + 1980,
    {
        proof {
            lemma_fat_time_bits(self.0);
        }
        (self.0 & (0b1111_1110_0000_0000u16 >> 9u16)) + 1980
    }
}

} // verus!
