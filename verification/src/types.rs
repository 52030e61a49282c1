use vstd::prelude::*;

verus! {

/// What one ping attempt gave.
#[derive(Debug, Clone)]
pub enum PingOutcome {
    /// An echo reply came back after `rtt` nanoseconds.
    Success { rtt: u64 },
    /// No reply came before the timeout.
    Timeout,
    /// The ping could not be sent or failed otherwise; the message says why.
    Error(String),
}

/// Result of a single ping attempt.
#[derive(Debug, Clone)]
pub struct PingResult {
    pub host_index: usize,
    pub seq: u16,
    pub outcome: PingOutcome,
}

/// Status of a monitored host.
#[derive(Debug, Clone, Copy, PartialEq, Eq, Structural)]
pub enum HostStatus {
    Up,
    Elevated,
    Down,
    Unknown,
}

/// Colors the screen uses for hosts and statuses.
#[derive(Debug, Clone, Copy, PartialEq, Eq, Structural)]
pub enum Color {
    Cyan,
    Magenta,
    Yellow,
    Green,
    Blue,
    Red,
    LightCyan,
    LightMagenta,
    DarkGray,
}

/// The label shown for a status.
pub open spec fn status_symbol(s: HostStatus) -> Seq<char> {
    match s {
        HostStatus::Up => "▲ Up"@,
        HostStatus::Elevated => "▲ Elevated"@,
        HostStatus::Down => "▼ Down"@,
        HostStatus::Unknown => "? Unknown"@,
    }
}

/// The color shown for a status.
pub open spec fn status_color(s: HostStatus) -> Color {
    match s {
        HostStatus::Up => Color::Green,
        HostStatus::Elevated => Color::Yellow,
        HostStatus::Down => Color::Red,
        HostStatus::Unknown => Color::DarkGray,
    }
}

impl HostStatus {
    pub fn symbol(self) -> (res: &'static str)
        ensures
            res@ == status_symbol(self),
    {
        match self {
            HostStatus::Up => "▲ Up",
            HostStatus::Elevated => "▲ Elevated",
            HostStatus::Down => "▼ Down",
            HostStatus::Unknown => "? Unknown",
        }
    }

    pub fn color(self) -> (res: Color)
        ensures
            res == status_color(self),
    {
        match self {
            HostStatus::Up => Color::Green,
            HostStatus::Elevated => Color::Yellow,
            HostStatus::Down => Color::Red,
            HostStatus::Unknown => Color::DarkGray,
        }
    }
}

/// The address family of an IP address.
#[derive(Debug, Clone, Copy, PartialEq, Eq, Structural)]
pub enum IpFamily {
    V4,
    V6,
}

/// Whether an address of this family may be used: only IPv4 when `ipv4`
/// is asked for, else only IPv6 when `ipv6` is, else either.
pub open spec fn usable(family: IpFamily, ipv4: bool, ipv6: bool) -> bool {
    if ipv4 {
        family == IpFamily::V4
    } else if ipv6 {
        family == IpFamily::V6
    } else {
        true
    }
}

/// Whether an address of this family may be used under the `-4` / `-6` options.
pub fn should_use_ip(family: IpFamily, ipv4: bool, ipv6: bool) -> (res: bool)
    ensures
        res == usable(family, ipv4, ipv6),
{
    if ipv4 {
        family == IpFamily::V4
    } else if ipv6 {
        family == IpFamily::V6
    } else {
        true
    }
}

/// The position of the first usable address among the resolved ones, if any.
pub fn first_usable(candidates: &Vec<IpFamily>, ipv4: bool, ipv6: bool) -> (res: Option<usize>)
    ensures
        match res {
            Some(i) => {
                &&& i < candidates@.len()
                &&& usable(candidates@[i as int], ipv4, ipv6)
                &&& forall|j: int| 0 <= j < i ==> !usable(#[trigger] candidates@[j], ipv4, ipv6)
            },
            None => forall|j: int|
                0 <= j < candidates@.len() ==> !usable(#[trigger] candidates@[j], ipv4, ipv6),
        },
{
    let mut i: usize = 0;
    while i < candidates.len()
        invariant
            i <= candidates@.len(),
            forall|j: int| 0 <= j < i ==> !usable(#[trigger] candidates@[j], ipv4, ipv6),
        decreases candidates@.len() - i,
    {
        if should_use_ip(candidates[i], ipv4, ipv6) {
            return Some(i);
        }
        i = i + 1;
    }
    None
}

/// The color of the host at this position: the palette repeats every eight hosts.
pub open spec fn host_color_of(index: nat) -> Color {
    let k = index % 8;
    if k == 0 {
        Color::Cyan
    } else if k == 1 {
        Color::Magenta
    } else if k == 2 {
        Color::Yellow
    } else if k == 3 {
        Color::Green
    } else if k == 4 {
        Color::Blue
    } else if k == 5 {
        Color::Red
    } else if k == 6 {
        Color::LightCyan
    } else {
        Color::LightMagenta
    }
}

/// The color of the host at this position.
pub fn host_color(index: usize) -> (res: Color)
    ensures
        res == host_color_of(index as nat),
{
    match index % 8 {
        0 => Color::Cyan,
        1 => Color::Magenta,
        2 => Color::Yellow,
        3 => Color::Green,
        4 => Color::Blue,
        5 => Color::Red,
        6 => Color::LightCyan,
        _ => Color::LightMagenta,
    }
}

} // verus!
