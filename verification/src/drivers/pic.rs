use vstd::prelude::*;

verus! {

/// The command that ends an interrupt.
pub const EOI_COMMAND: u8 = 0x20;

/// The command that starts the set-up of a controller.
pub const INIT_COMMAND: u8 = 0x11;

/// The mode word for processors of the 8086 family.
pub const MODE_8086: u8 = 0x01;

/// A byte that is to be written to a port.
#[derive(Clone, Copy, Debug, PartialEq, Eq, Structural)]
pub struct PortWrite {
    pub port: u16,
    pub value: u8,
}

/// An interrupt controller, known by its two ports.
#[derive(Clone, Copy, Debug, PartialEq, Eq, Structural)]
pub struct Pic {
    pub command_port: u16,
    pub data_port: u16,
}

/// The first controller.
pub fn master() -> (pic: Pic)
    ensures
        pic == (Pic { command_port: 0x20, data_port: 0x21 }),
{
    Pic::new(0x20, 0x21)
}

/// The second controller, which hangs on line 2 of the first.
pub fn slave() -> (pic: Pic)
    ensures
        pic == (Pic { command_port: 0xA0, data_port: 0xA1 }),
{
    Pic::new(0xA0, 0xA1)
}

impl Pic {
    pub fn new(command_port: u16, data_port: u16) -> (pic: Pic)
        ensures
            pic == (Pic { command_port, data_port }),
    {
        Pic { command_port, data_port }
    }

    /// The mask with the line `irq_line` let through: what is to be written to the data
    /// port where `mask` was read from it.
    pub fn enable_irq(&self, mask: u8, irq_line: u8) -> (write: PortWrite)
        ensures
            write == (PortWrite {
                port: self.data_port,
                value: mask & !(1u8 << ((irq_line % 8) as u8)),
            }),
    {
        let irq_line = irq_line % 8;
        PortWrite { port: self.data_port, value: mask & !(1u8 << irq_line) }
    }

    /// The mask with the line `irq_line` held back: what is to be written to the data port
    /// where `mask` was read from it.
    pub fn disable_irq(&self, mask: u8, irq_line: u8) -> (write: PortWrite)
        ensures
            write == (PortWrite {
                port: self.data_port,
                value: mask | (1u8 << ((irq_line % 8) as u8)),
            }),
    {
        let irq_line = irq_line % 8;
        PortWrite { port: self.data_port, value: mask | (1u8 << irq_line) }
    }

    /// What tells the controller that an interrupt was dealt with, so that it sends more.
    pub fn send_eoi(&self) -> (write: PortWrite)
        ensures
            write == (PortWrite { port: self.command_port, value: EOI_COMMAND }),
    {
        PortWrite { port: self.command_port, value: EOI_COMMAND }
    }

    /// What sets the controller up, to be written in this order with a wait after each
    /// byte: the command to start, the number of the first interrupt, how the two
    /// controllers hang together, the mode, and the mask `mask` that was read before.
    pub fn init(&self, offset: u8, is_master: bool, mask: u8) -> (writes: Vec<PortWrite>)
        ensures
            writes@ == seq![
                PortWrite { port: self.command_port, value: INIT_COMMAND },
                PortWrite { port: self.data_port, value: offset },
                PortWrite { port: self.data_port, value: if is_master { 4u8 } else { 2u8 } },
                PortWrite { port: self.data_port, value: MODE_8086 },
                PortWrite { port: self.data_port, value: mask },
            ],
    {
        let mut writes: Vec<PortWrite> = Vec::new();
        // start initializing the controller
        writes.push(PortWrite { port: self.command_port, value: INIT_COMMAND });
        // the vector offset
        writes.push(PortWrite { port: self.data_port, value: offset });
        // tell the first controller that there is a second one at line 2
        writes.push(
            PortWrite {
                port: self.data_port,
                value: if is_master {
                    4
                } else {
                    2
                },
            },
        );
        // set the mode
        writes.push(PortWrite { port: self.data_port, value: MODE_8086 });
        // restore the mask
        writes.push(PortWrite { port: self.data_port, value: mask });
        assert(writes@ =~= seq![
            PortWrite { port: self.command_port, value: INIT_COMMAND },
            PortWrite { port: self.data_port, value: offset },
            PortWrite { port: self.data_port, value: if is_master { 4u8 } else { 2u8 } },
            PortWrite { port: self.data_port, value: MODE_8086 },
            PortWrite { port: self.data_port, value: mask },
        ]);
        writes
    }
}

} // verus!
