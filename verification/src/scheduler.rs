//! Per-lcycle bookkeeping of the scheduler: how many qubits of each kind and
//! how many T products each lcycle used, with running totals.
use vstd::prelude::*;
use crate::node::NodeType;
use crate::circuit::Circuit;
use crate::topograph::TopoGraph;
use crate::paths::{file_stem, file_stem_of, stem_or};

verus! {

/// Qubit usage counters of the current lcycle and their running sums.
pub struct ScheduleStats {
    pub data_qubits: usize,
    pub bus_qubits: usize,
    pub magic_qubits: usize,
    pub sum_data_scheduled: usize,
    pub sum_bus_scheduled: usize,
    pub sum_magic_scheduled: usize,
    pub bus_scheduled: usize,
    pub data_scheduled: usize,
    pub magic_scheduled: usize,
    /// T products that consumed a magic node this lcycle (first attempt only).
    pub t_scheduled: usize,
    /// Ready magic nodes used in any path this lcycle (routing or T-terminal).
    pub magic_ready_used: usize,
    pub sum_magic_unused: usize,
    pub plot_info_str: String,
}

/// The figures of one lcycle that `update` reports: products scheduled out
/// of those available, qubits used out of all, and T products scheduled out
/// of the ready magic nodes that were not spent on routing alone.
#[derive(Debug, Clone, Copy, PartialEq, Eq, Structural)]
pub struct LcycleReport {
    pub lcycle: usize,
    pub products_scheduled: usize,
    pub products_available: usize,
    pub qubits_used: usize,
    pub qubits_total: usize,
    pub magic_used: usize,
    pub magic_available: usize,
}

/// `a - b`, or 0 when `b` exceeds `a`.
pub open spec fn sat_sub(a: int, b: int) -> int {
    if a >= b { a - b } else { 0 }
}

impl ScheduleStats {
    /// Counters for a layout with the given numbers of data, bus and magic
    /// qubits; every count and sum starts at zero and the plot line is empty.
    pub fn new(data_qubits: usize, bus_qubits: usize, magic_qubits: usize) -> (s: Self)
        ensures
            s.data_qubits == data_qubits,
            s.bus_qubits == bus_qubits,
            s.magic_qubits == magic_qubits,
            s.sum_data_scheduled == 0,
            s.sum_bus_scheduled == 0,
            s.sum_magic_scheduled == 0,
            s.bus_scheduled == 0,
            s.data_scheduled == 0,
            s.magic_scheduled == 0,
            s.t_scheduled == 0,
            s.magic_ready_used == 0,
            s.sum_magic_unused == 0,
            s.plot_info_str@ == Seq::<char>::empty(),
    {
        ScheduleStats {
            data_qubits,
            bus_qubits,
            magic_qubits,
            sum_data_scheduled: 0,
            sum_bus_scheduled: 0,
            sum_magic_scheduled: 0,
            bus_scheduled: 0,
            data_scheduled: 0,
            magic_scheduled: 0,
            t_scheduled: 0,
            magic_ready_used: 0,
            sum_magic_unused: 0,
            plot_info_str: String::new(),
        }
    }

    /// Closes lcycle `lcycle_i`: adds this lcycle's counts to the running
    /// sums (and `magic_unused` to the unused-magic sum), resets the lcycle
    /// counters, and reports the lcycle's figures. The magic figure leaves
    /// out ready magic nodes that served only for routing.
    pub fn update(
        &mut self, lcycle_i: usize, pp_paths_len: usize, total_available: usize, magic_ready: usize,
        magic_unused: usize,
    ) -> (r: LcycleReport)
        requires
            old(self).sum_data_scheduled + old(self).data_scheduled <= usize::MAX,
            old(self).sum_bus_scheduled + old(self).bus_scheduled <= usize::MAX,
            old(self).sum_magic_scheduled + old(self).magic_scheduled <= usize::MAX,
            old(self).sum_magic_unused + magic_unused <= usize::MAX,
            old(self).data_qubits + old(self).bus_qubits + old(self).magic_qubits <= usize::MAX,
            old(self).data_scheduled + old(self).bus_scheduled + old(self).magic_scheduled <= usize::MAX,
        ensures
            final(self).sum_data_scheduled == old(self).sum_data_scheduled + old(self).data_scheduled,
            final(self).sum_bus_scheduled == old(self).sum_bus_scheduled + old(self).bus_scheduled,
            final(self).sum_magic_scheduled == old(self).sum_magic_scheduled + old(self).magic_scheduled,
            final(self).sum_magic_unused == old(self).sum_magic_unused + magic_unused,
            final(self).data_scheduled == 0,
            final(self).bus_scheduled == 0,
            final(self).magic_scheduled == 0,
            final(self).t_scheduled == 0,
            final(self).magic_ready_used == 0,
            final(self).data_qubits == old(self).data_qubits,
            final(self).bus_qubits == old(self).bus_qubits,
            final(self).magic_qubits == old(self).magic_qubits,
            final(self).plot_info_str@ == old(self).plot_info_str@,
            r.lcycle == lcycle_i,
            r.products_scheduled == pp_paths_len,
            r.products_available == total_available,
            r.qubits_used == old(self).data_scheduled + old(self).bus_scheduled + old(self).magic_scheduled,
            r.qubits_total == old(self).data_qubits + old(self).bus_qubits + old(self).magic_qubits,
            r.magic_used == old(self).t_scheduled,
            r.magic_available == sat_sub(magic_ready as int, sat_sub(old(self).magic_ready_used as int, old(self).t_scheduled as int)),
    {
        self.sum_data_scheduled += self.data_scheduled;
        self.sum_bus_scheduled += self.bus_scheduled;
        self.sum_magic_scheduled += self.magic_scheduled;
        self.sum_magic_unused += magic_unused;

        let total_qubits = self.data_qubits + self.bus_qubits + self.magic_qubits;
        let tot_qubits_used = self.data_scheduled + self.bus_scheduled + self.magic_scheduled;
        let magic_ready_routing = self.magic_ready_used.saturating_sub(self.t_scheduled);
        let magic_denom = magic_ready.saturating_sub(magic_ready_routing);
        let report = LcycleReport {
            lcycle: lcycle_i,
            products_scheduled: pp_paths_len,
            products_available: total_available,
            qubits_used: tot_qubits_used,
            qubits_total: total_qubits,
            magic_used: self.t_scheduled,
            magic_available: magic_denom,
        };

        self.data_scheduled = 0;
        self.bus_scheduled = 0;
        self.magic_scheduled = 0;
        self.t_scheduled = 0;
        self.magic_ready_used = 0;
        report
    }

    /// Counts one scheduled qubit of the given kind in this lcycle.
    pub fn inc(&mut self, node_type: NodeType)
        requires
            node_type == NodeType::Bus ==> old(self).bus_scheduled < usize::MAX,
            node_type == NodeType::Magic ==> old(self).magic_scheduled < usize::MAX,
            node_type == NodeType::Data ==> old(self).data_scheduled < usize::MAX,
        ensures
            *final(self) == (match node_type {
                NodeType::Bus => ScheduleStats { bus_scheduled: (old(self).bus_scheduled + 1) as usize, ..*old(self) },
                NodeType::Magic => ScheduleStats { magic_scheduled: (old(self).magic_scheduled + 1) as usize, ..*old(self) },
                NodeType::Data => ScheduleStats { data_scheduled: (old(self).data_scheduled + 1) as usize, ..*old(self) },
            }),
    {
        match node_type {
            NodeType::Bus => self.bus_scheduled += 1,
            NodeType::Magic => self.magic_scheduled += 1,
            NodeType::Data => self.data_scheduled += 1,
        }
    }

    /// Like `inc`, and a magic node whose magic state is ready (cultivation
    /// time 0) also counts as a ready magic node used.
    pub fn inc_with_cultivation(&mut self, node_type: NodeType, cultivation_time: i32)
        requires
            node_type == NodeType::Bus ==> old(self).bus_scheduled < usize::MAX,
            node_type == NodeType::Magic ==> old(self).magic_scheduled < usize::MAX,
            node_type == NodeType::Data ==> old(self).data_scheduled < usize::MAX,
            node_type == NodeType::Magic && cultivation_time == 0 ==> old(self).magic_ready_used < usize::MAX,
        ensures
            final(self).magic_ready_used == old(self).magic_ready_used
                + (if node_type == NodeType::Magic && cultivation_time == 0 { 1int } else { 0int }),
            final(self).bus_scheduled == old(self).bus_scheduled + (if node_type == NodeType::Bus { 1int } else { 0int }),
            final(self).magic_scheduled == old(self).magic_scheduled + (if node_type == NodeType::Magic { 1int } else { 0int }),
            final(self).data_scheduled == old(self).data_scheduled + (if node_type == NodeType::Data { 1int } else { 0int }),
            *final(self) == (ScheduleStats {
                bus_scheduled: final(self).bus_scheduled,
                magic_scheduled: final(self).magic_scheduled,
                data_scheduled: final(self).data_scheduled,
                magic_ready_used: final(self).magic_ready_used,
                ..*old(self)
            }),
    {
        self.inc(node_type);
        if node_type == NodeType::Magic && cultivation_time == 0 {
            self.magic_ready_used += 1;
        }
    }

    /// Counts one T product scheduled in this lcycle.
    pub fn inc_t(&mut self)
        requires
            old(self).t_scheduled < usize::MAX,
        ensures
            *final(self) == (ScheduleStats { t_scheduled: (old(self).t_scheduled + 1) as usize, ..*old(self) }),
    {
        self.t_scheduled += 1;
    }

    /// Stores the text describing the last lcycle for plot titles.
    pub fn set_plot_info_str(&mut self, info: String)
        ensures
            *final(self) == (ScheduleStats { plot_info_str: info, ..*old(self) }),
    {
        self.plot_info_str = info;
    }

    /// The text describing the last lcycle for plot titles.
    pub fn get_plot_info_str(&self) -> (s: &str)
        ensures
            s@ == self.plot_info_str@,
    {
        self.plot_info_str.as_str()
    }
}

/// What the scheduler reads and never changes: the circuit and the layout.
pub struct SchedulerInput {
    pub circuit: Circuit,
    pub topo: TopoGraph,
}

impl SchedulerInput {
    /// The file stem of the circuit's file name, or "circuit" when it has none.
    pub fn circuit_stem(&self) -> (s: String)
        ensures
            s@ == (match file_stem_of(self.circuit.circuit_fname@) {
                Some(st) => st,
                None => "circuit"@,
            }),
    {
        let stem = file_stem(self.circuit.circuit_fname.as_str());
        stem_or(stem, "circuit")
    }
}

} // verus!
