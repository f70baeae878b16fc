//! The figures of one inspected object and the row that reports them.

use vstd::prelude::*;
use crate::mebibytes::Mebibytes;

verus! {

/// The figures of one node or namespace: what is requested, what is in use
/// and what there is in total. CPU is counted in milli-cores.
#[derive(Clone, Debug, PartialEq, Eq)]
pub struct ResouceRequests {
    pub name: String,
    pub cpu_requests: u32,
    pub cpu_total: u32,
    pub cpu_usage: u32,
    pub mem_requests: Mebibytes,
    pub mem_total: Mebibytes,
    pub mem_usage: Mebibytes,
    pub storage_requests: Mebibytes,
    pub storage_total: Mebibytes,
    pub pods: usize,
    pub pods_total: usize,
}

/// One row of the report: the name and six figures as text.
#[derive(Clone, Debug, PartialEq, Eq)]
pub struct ResourceStatus {
    pub name: String,
    pub cpu_requests: String,
    pub cpu_usage: String,
    pub mem_requests: String,
    pub mem_usage: String,
    pub storage_requests: String,
    pub pods: String,
}

/// The text of a row, column by column.
pub ghost struct RowText {
    pub name: Seq<char>,
    pub cpu_requests: Seq<char>,
    pub cpu_usage: Seq<char>,
    pub mem_requests: Seq<char>,
    pub mem_usage: Seq<char>,
    pub storage_requests: Seq<char>,
    pub pods: Seq<char>,
}

impl View for ResourceStatus {
    type V = RowText;

    open spec fn view(&self) -> RowText {
        RowText {
            name: self.name@,
            cpu_requests: self.cpu_requests@,
            cpu_usage: self.cpu_usage@,
            mem_requests: self.mem_requests@,
            mem_usage: self.mem_usage@,
            storage_requests: self.storage_requests@,
            pods: self.pods@,
        }
    }
}

impl ResouceRequests {
    /// The record of the object called `name` with the given figures.
    pub fn new(
        name: String,
        cpu_requests: u32,
        cpu_total: u32,
        cpu_usage: u32,
        mem_requests: Mebibytes,
        mem_total: Mebibytes,
        mem_usage: Mebibytes,
        storage_requests: Mebibytes,
        storage_total: Mebibytes,
        pods: usize,
        pods_total: usize,
    ) -> (record: ResouceRequests)
        ensures
            record == (ResouceRequests {
                name,
                cpu_requests,
                cpu_total,
                cpu_usage,
                mem_requests,
                mem_total,
                mem_usage,
                storage_requests,
                storage_total,
                pods,
                pods_total,
            }),
    {
        ResouceRequests {
            name,
            cpu_requests,
            cpu_total,
            cpu_usage,
            mem_requests,
            mem_total,
            mem_usage,
            storage_requests,
            storage_total,
            pods,
            pods_total,
        }
    }
}

impl ResourceStatus {
    /// The row with the given columns.
    pub fn new(
        name: String,
        cpu_requests: String,
        cpu_usage: String,
        mem_requests: String,
        mem_usage: String,
        storage_requests: String,
        pods: String,
    ) -> (row: ResourceStatus)
        ensures
            row == (ResourceStatus {
                name,
                cpu_requests,
                cpu_usage,
                mem_requests,
                mem_usage,
                storage_requests,
                pods,
            }),
    {
        ResourceStatus {
            name,
            cpu_requests,
            cpu_usage,
            mem_requests,
            mem_usage,
            storage_requests,
            pods,
        }
    }
}

/// Appends the record of one inspected object to `rrs`.
pub fn add_data(
    resource_name: String,
    cpu_requests: u32,
    cpu_total: u32,
    cpu_usage: u32,
    mem_requests: Mebibytes,
    mem_total: Mebibytes,
    mem_usage: Mebibytes,
    storage_requests: Mebibytes,
    storage_total: Mebibytes,
    pods: usize,
    pods_total: usize,
    rrs: &mut Vec<ResouceRequests>,
)
    ensures
        final(rrs)@ == old(rrs)@.push(
            (ResouceRequests {
                name: resource_name,
                cpu_requests,
                cpu_total,
                cpu_usage,
                mem_requests,
                mem_total,
                mem_usage,
                storage_requests,
                storage_total,
                pods,
                pods_total,
            }),
        ),
{
    rrs.push(
        ResouceRequests::new(
            resource_name,
            cpu_requests,
            cpu_total,
            cpu_usage,
            mem_requests,
            mem_total,
            mem_usage,
            storage_requests,
            storage_total,
            pods,
            pods_total,
        ),
    );
}

} // verus!
