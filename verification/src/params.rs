//! The parameters of a generation.

use vstd::prelude::*;
use crate::error::TransferError;

verus! {

/// How transfers are generated. Lengths are in millimetres, times in seconds.
#[derive(Clone, Copy, Debug, PartialEq, Eq, Structural)]
pub struct GenerationParameters {
    /// The greatest distance, in millimetres, over which a transfer is
    /// generated.
    pub max_distance: i64,
    /// The walking speed, in millimetres per second.
    pub walking_speed: i64,
    /// The time to wait at the stop point where a transfer ends, in seconds.
    pub waiting_time: u32,
    /// Whether each stop point gets a transfer to itself.
    pub same_point_transfers: bool,
}

impl GenerationParameters {
    /// The parameters with which a generation can run: a positive walking
    /// speed and a distance threshold that is not negative.
    pub open spec fn valid(&self) -> bool {
        self.walking_speed > 0 && self.max_distance >= 0
    }

    /// Accepts valid parameters and rejects the others.
    pub fn validate(&self) -> (res: Result<(), TransferError>)
        ensures
            res is Ok <==> self.valid(),
            res is Err ==> res == Err::<(), TransferError>(TransferError::InvalidParameter),
    {
        if self.walking_speed <= 0 || self.max_distance < 0 {
            Err(TransferError::InvalidParameter)
        } else {
            Ok(())
        }
    }
}

impl Default for GenerationParameters {
    /// Transfers over at most 300 metres, walked at 0.785 metres per second,
    /// with a minute of waiting, and none from a stop point to itself.
    fn default() -> (params: GenerationParameters)
        ensures
            params == (GenerationParameters {
                max_distance: 300_000,
                walking_speed: 785,
                waiting_time: 60,
                same_point_transfers: false,
            }),
            params.valid(),
    {
        GenerationParameters {
            max_distance: 300_000,
            walking_speed: 785,
            waiting_time: 60,
            same_point_transfers: false,
        }
    }
}

} // verus!
