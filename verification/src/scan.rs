//! Walking a file with `SEEK_DATA`/`SEEK_HOLE`.
//!
//! A [`HoleScan`] decides what to ask the file system next and what its answers
//! mean; whoever runs the scan performs the seeks. The scan alternates between
//! looking for the start of the next data region and for the hole that ends it.
use crate::data_map::DataMap;
use vstd::prelude::*;

verus! {

/// Why a seek gave no offset.
#[derive(Debug, Clone, Copy, PartialEq, Eq, Structural)]
pub enum SeekError {
    /// There is no data between the position asked about and the end of the file (`ENXIO`).
    NoData,
    /// Seeking for data or holes is not supported, or failed in some other way.
    Other,
}

/// What a scan waits for.
#[derive(Debug, Clone, Copy, PartialEq, Eq, Structural)]
pub enum Stage {
    /// The start of the next data region at or after this offset (`SEEK_DATA`).
    SeekData(i64),
    /// The end of the data region that starts at this offset (`SEEK_HOLE`).
    SeekHole(i64),
    /// Nothing: all data up to the size of the file is known.
    Complete,
    /// Nothing: the file system cannot tell data from holes.
    Unsupported,
}

/// A scan as a mathematical value.
pub struct ScanModel {
    pub size: i64,
    pub extents: Seq<(u64, u64)>,
    pub stage: Stage,
}

/// The scan of a file of `size` bytes before the first seek.
pub open spec fn begin(size: i64) -> ScanModel {
    ScanModel {
        size,
        extents: Seq::empty(),
        stage: if size > 0 {
            Stage::SeekData(0)
        } else {
            Stage::Complete
        },
    }
}

/// The scan after the data region `[start, end)` has been found.
pub open spec fn with_region(scan: ScanModel, start: i64, end: i64) -> ScanModel {
    ScanModel {
        size: scan.size,
        extents: scan.extents.push((start as u64, end as u64)),
        stage: if end < scan.size {
            Stage::SeekData(end)
        } else {
            Stage::Complete
        },
    }
}

/// The scan after the seek that it waited for was answered with `reply`.
pub open spec fn step(scan: ScanModel, reply: Result<i64, SeekError>) -> ScanModel {
    match scan.stage {
        Stage::SeekData(_) => {
            let stage = match reply {
                Ok(offset) if offset < scan.size => Stage::SeekHole(offset),
                Ok(_) => Stage::Complete,
                Err(SeekError::NoData) => Stage::Complete,
                Err(SeekError::Other) => Stage::Unsupported,
            };
            ScanModel { stage, ..scan }
        },
        Stage::SeekHole(start) => match reply {
            Ok(offset) if start < offset && start < scan.size => with_region(
                scan,
                start,
                if offset < scan.size {
                    offset
                } else {
                    scan.size
                },
            ),
            _ => ScanModel { stage: Stage::Unsupported, ..scan },
        },
        Stage::Complete | Stage::Unsupported => scan,
    }
}

/// A scan of a file for its data regions.
#[derive(Debug)]
pub struct HoleScan {
    pub size: i64,
    pub extents: Vec<(u64, u64)>,
    pub stage: Stage,
}

impl View for HoleScan {
    type V = ScanModel;

    open spec fn view(&self) -> ScanModel {
        ScanModel { size: self.size, extents: self.extents@, stage: self.stage }
    }
}

impl HoleScan {
    /// Starts the scan of a file of `size` bytes. Returns `None` if no file offset can
    /// express the size.
    pub fn start(size: u64) -> (scan: Option<HoleScan>)
        ensures
            scan is Some <==> size <= i64::MAX,
            scan is Some ==> scan->0@ == begin(size as i64),
    {
        if size > i64::MAX as u64 {
            return None;
        }
        let size: i64 = size as i64;
        let stage: Stage = if 0 < size {
            Stage::SeekData(0)
        } else {
            Stage::Complete
        };
        Some(HoleScan { size, extents: Vec::new(), stage })
    }

    /// Takes the answer to the seek that the scan waits for.
    pub fn answer(&mut self, reply: Result<i64, SeekError>)
        ensures
            final(self)@ == step(old(self)@, reply),
            final(self).size == old(self).size,
            old(self).stage is SeekData && reply == Err::<i64, SeekError>(SeekError::Other) ==>
                final(self).stage is Unsupported,
            old(self).stage is SeekHole && reply is Err ==> final(self).stage is Unsupported,
            old(self).stage is Complete || old(self).stage is Unsupported ==> final(self).stage
                == old(self).stage && final(self).extents@ == old(self).extents@,
    {
        match self.stage {
            Stage::SeekData(_) => {
                self.stage = match reply {
                    Ok(data_start) => if data_start >= self.size {
                        Stage::Complete
                    } else {
                        Stage::SeekHole(data_start)
                    },
                    // No data up to the end of the file: the remainder is a hole.
                    Err(SeekError::NoData) => Stage::Complete,
                    Err(SeekError::Other) => Stage::Unsupported,
                };
            },
            Stage::SeekHole(data_start) => {
                match reply {
                    Ok(offset) => {
                        let data_end: i64 = if offset < self.size {
                            offset
                        } else {
                            self.size
                        };
                        // Guard against looping forever if the seek does not advance.
                        if data_end <= data_start {
                            self.stage = Stage::Unsupported;
                        } else {
                            self.extents.push((data_start as u64, data_end as u64));
                            self.stage = if data_end < self.size {
                                Stage::SeekData(data_end)
                            } else {
                                Stage::Complete
                            };
                        }
                    },
                    Err(_) => {
                        self.stage = Stage::Unsupported;
                    },
                }
            },
            Stage::Complete | Stage::Unsupported => {},
        }
    }

    /// The map of what a completed scan found. Returns `None` if `SEEK_DATA`/`SEEK_HOLE` is
    /// unsupported or failed, or if the scan still waits for an answer.
    pub fn finish(self) -> (map: Option<DataMap>)
        ensures
            map is Some <==> self@.stage is Complete,
            map is Some ==> map->0@ == self@.extents,
    {
        match self.stage {
            Stage::Complete => Some(DataMap { extents: self.extents }),
            _ => None,
        }
    }
}

} // verus!
