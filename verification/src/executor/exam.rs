//! The order in which an input is examined after its first run.

use super::session::{follow_up, CalStep, Calibration};
use crate::config::LONG_CAL_TIME;
use crate::status::StatusType;
use vstd::prelude::*;

verus! {

/// Where the examination stands.
#[derive(Clone, Copy, Debug, PartialEq, Eq, Structural)]
pub enum ExamPhase {
    /// The fast target is run again to see what varies.
    Calibrating { cal: Calibration },
    /// What was found is to be taken over.
    Updating,
    /// The full target is to be run.
    FullRun,
    /// The full target is run again to see what varies.
    FullCalibrating { cal: Calibration },
    /// The boundaries of branches are to be brought up to date.
    Bounding,
    Over,
}

/// What is to be done next.
#[derive(Clone, Copy, Debug, PartialEq, Eq, Structural)]
pub enum ExamAction {
    RunFast,
    Update,
    RunFull,
    UpdateBoundary,
    Done,
}

/// The examination of an input.
#[derive(Clone, Copy, Debug, PartialEq, Eq, Structural)]
pub struct Exam {
    /// How the first run ended.
    pub status: StatusType,
    /// The input is an initial seed.
    pub sync_flag: bool,
    pub phase: ExamPhase,
}

/// How a calibration goes on: the one after a run, or nothing if it is over.
pub open spec fn next_cal(cal: Calibration, variable: bool) -> Option<Calibration> {
    let after = cal.after(variable);
    if after.cal_iter < after.cal_times {
        Some(after)
    } else {
        None
    }
}

impl Exam {
    pub open spec fn wf(self) -> bool {
        match self.phase {
            ExamPhase::Calibrating { cal } => cal.wf() && cal.cal_iter < cal.cal_times,
            ExamPhase::FullCalibrating { cal } => cal.wf() && cal.cal_iter < cal.cal_times,
            _ => true,
        }
    }

    /// The phase after a run of a target.
    pub open spec fn phase_after_run(self, now_status: StatusType, variable: bool) -> ExamPhase {
        match self.phase {
            ExamPhase::Calibrating { cal } => if now_status != self.status {
                ExamPhase::Over
            } else {
                match next_cal(cal, variable) {
                    Some(c) => ExamPhase::Calibrating { cal: c },
                    None => ExamPhase::Updating,
                }
            },
            ExamPhase::FullRun => ExamPhase::FullCalibrating { cal: Calibration::first() },
            ExamPhase::FullCalibrating { cal } => if now_status != self.status {
                ExamPhase::Over
            } else {
                match next_cal(cal, variable) {
                    Some(c) => ExamPhase::FullCalibrating { cal: c },
                    None => ExamPhase::Bounding,
                }
            },
            p => p,
        }
    }

    /// The phase after what was found was taken over.
    pub open spec fn phase_after_update(self, has_new_edge: bool) -> ExamPhase {
        if has_new_edge && self.status == StatusType::Normal {
            ExamPhase::FullRun
        } else {
            ExamPhase::Over
        }
    }

    /// Begins the examination of an input. One that may have shown something
    /// new is calibrated first.
    pub fn new(status: StatusType, write_flag: bool, sync_flag: bool) -> (r: Self)
        ensures
            r.wf(),
            r.status == status,
            r.sync_flag == sync_flag,
            r.phase == if write_flag && status == StatusType::Normal {
                ExamPhase::Calibrating { cal: Calibration::first() }
            } else {
                ExamPhase::Updating
            },
    {
        let phase = if super::session::needs_calibration(write_flag, status) {
            ExamPhase::Calibrating { cal: Calibration::new() }
        } else {
            ExamPhase::Updating
        };
        Exam { status, sync_flag, phase }
    }

    /// What is to be done next.
    pub fn action(&self) -> (r: ExamAction)
        ensures
            r == match self.phase {
                ExamPhase::Calibrating { .. } => ExamAction::RunFast,
                ExamPhase::Updating => ExamAction::Update,
                ExamPhase::FullRun => ExamAction::RunFull,
                ExamPhase::FullCalibrating { .. } => ExamAction::RunFull,
                ExamPhase::Bounding => ExamAction::UpdateBoundary,
                ExamPhase::Over => ExamAction::Done,
            },
    {
        match self.phase {
            ExamPhase::Calibrating { .. } => ExamAction::RunFast,
            ExamPhase::Updating => ExamAction::Update,
            ExamPhase::FullRun => ExamAction::RunFull,
            ExamPhase::FullCalibrating { .. } => ExamAction::RunFull,
            ExamPhase::Bounding => ExamAction::UpdateBoundary,
            ExamPhase::Over => ExamAction::Done,
        }
    }

    /// Notes a run of a target: how it ended, and whether something varied.
    pub fn note_run(&mut self, now_status: StatusType, variable: bool)
        requires
            old(self).wf(),
        ensures
            final(self).wf(),
            *final(self) == (Exam {
                phase: old(self).phase_after_run(now_status, variable),
                ..*old(self)
            }),
    {
        match self.phase {
            ExamPhase::Calibrating { cal } => {
                let mut c = cal;
                let step = c.note_run(now_status, self.status, variable);
                self.phase = match step {
                    CalStep::Run => ExamPhase::Calibrating { cal: c },
                    CalStep::Done => ExamPhase::Updating,
                    CalStep::Abort => ExamPhase::Over,
                };
            },
            ExamPhase::FullRun => {
                self.phase = ExamPhase::FullCalibrating { cal: Calibration::new() };
            },
            ExamPhase::FullCalibrating { cal } => {
                let mut c = cal;
                let step = c.note_run(now_status, self.status, variable);
                self.phase = match step {
                    CalStep::Run => ExamPhase::FullCalibrating { cal: c },
                    CalStep::Done => ExamPhase::Bounding,
                    CalStep::Abort => ExamPhase::Over,
                };
            },
            _ => {},
        }
    }

    /// Notes that what was found was taken over, and tells whether the input
    /// is to be made a seed whatever it found.
    pub fn note_update(&mut self, has_new_edge: bool) -> (insert_seed: bool)
        requires
            old(self).phase == ExamPhase::Updating,
        ensures
            final(self).wf(),
            *final(self) == (Exam {
                phase: old(self).phase_after_update(has_new_edge),
                ..*old(self)
            }),
            insert_seed == (old(self).sync_flag && old(self).status == StatusType::Normal),
    {
        let f = follow_up(self.status, self.sync_flag, has_new_edge);
        self.phase = if f.run_full {
            ExamPhase::FullRun
        } else {
            ExamPhase::Over
        };
        f.insert_seed
    }

    /// Notes that the boundaries were brought up to date.
    pub fn note_boundary(&mut self)
        requires
            old(self).phase == ExamPhase::Bounding,
        ensures
            final(self).wf(),
            *final(self) == (Exam { phase: ExamPhase::Over, ..*old(self) }),
    {
        self.phase = ExamPhase::Over;
    }

    /// How much there may still be to do.
    pub open spec fn left(self) -> int {
        match self.phase {
            ExamPhase::Calibrating { cal } => 20 + LONG_CAL_TIME - cal.cal_iter,
            ExamPhase::Updating => 20,
            ExamPhase::FullRun => 19,
            ExamPhase::FullCalibrating { cal } => 10 + LONG_CAL_TIME - cal.cal_iter,
            ExamPhase::Bounding => 1,
            ExamPhase::Over => 0,
        }
    }
}

/// Every step of an examination brings its end closer.
pub proof fn exams_end(e: Exam, now_status: StatusType, variable: bool, has_new_edge: bool)
    requires
        e.wf(),
        e.phase != ExamPhase::Over,
    ensures
        e.left() > 0,
        e.phase != ExamPhase::Updating && e.phase != ExamPhase::Bounding ==> (Exam {
            phase: e.phase_after_run(now_status, variable),
            ..e
        }).left() < e.left(),
        e.phase == ExamPhase::Updating ==> (Exam {
            phase: e.phase_after_update(has_new_edge),
            ..e
        }).left() < e.left(),
{
}

/// The examination of an input that may have shown something new, step by step:
/// it is run three times more, what it found is taken over, and if an edge is
/// new the full target is run once and three times more before the boundaries
/// are brought up to date. Where a run varies, six are made in place of three;
/// one that ends otherwise than the first ends the examination.
pub proof fn exams_take_their_course(e: Exam, n: usize, times: usize, other: StatusType)
    requires
        e.status == StatusType::Normal,
        other != StatusType::Normal,
        (times == 3 && n < 3) || (times == 6 && n < 6),
    ensures
        ({
            let cal = Calibration { cal_times: times, cal_iter: n };
            let next = Calibration { cal_times: times, cal_iter: (n + 1) as usize };
            let longer = Calibration { cal_times: 6, cal_iter: (n + 1) as usize };
            let fast = Exam { phase: ExamPhase::Calibrating { cal }, ..e };
            let full = Exam { phase: ExamPhase::FullCalibrating { cal }, ..e };
            &&& fast.phase_after_run(other, false) == ExamPhase::Over
            &&& full.phase_after_run(other, true) == ExamPhase::Over
            &&& fast.phase_after_run(StatusType::Normal, false) == if n + 1 < times {
                ExamPhase::Calibrating { cal: next }
            } else {
                ExamPhase::Updating
            }
            &&& full.phase_after_run(StatusType::Normal, false) == if n + 1 < times {
                ExamPhase::FullCalibrating { cal: next }
            } else {
                ExamPhase::Bounding
            }
            &&& n + 1 < 6 ==> fast.phase_after_run(StatusType::Normal, true)
                == (ExamPhase::Calibrating { cal: longer })
            &&& n + 1 < 6 ==> full.phase_after_run(StatusType::Normal, true)
                == (ExamPhase::FullCalibrating { cal: longer })
            &&& (Exam { phase: ExamPhase::FullRun, ..e }).phase_after_run(
                StatusType::Normal,
                false,
            ) == (ExamPhase::FullCalibrating {
                cal: Calibration { cal_times: 3, cal_iter: 0 },
            })
            &&& Calibration::first() == (Calibration { cal_times: 3, cal_iter: 0 })
        }),
        e.phase_after_update(true) == ExamPhase::FullRun,
        e.phase_after_update(false) == ExamPhase::Over,
        (Exam { status: other, ..e }).phase_after_update(true) == ExamPhase::Over,
{
}

} // verus!
